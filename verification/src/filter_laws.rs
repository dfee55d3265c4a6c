//! What the filter does to its input as a whole.

use vstd::prelude::*;
use vstd::seq_lib::lemma_flatten_concat;

use crate::bytes::{find, lemma_find, lemma_find_nothing, lemma_find_unique, occurs_at};
use crate::controls::{reply_names, ESCAPE};
use crate::filter::{answered, filtered, first_piece, forwarded, lemma_first_piece, pushed};
use crate::filter::{are_readings, command_count, contents, unfinished_prefix, Outcome, Piece};
use crate::matcher::{is_reply, kitty_prefix, kitty_suffix, payload};
use crate::matcher::{ok_message, reply_message};
use crate::matcher::{MatcherState, Response, MAX_RESPONSE_BYTES};
use crate::matcher_laws::{law_reply_is_answered_by_image, reply_of};

verus! {

/// The pieces of `s`, in order.
pub open spec fn pieces(s: Seq<u8>) -> Seq<Seq<u8>>
    decreases s.len(),
    via pieces_decreases
{
    match first_piece(s) {
        None => seq![],
        Some(piece) => seq![s.take(piece.len as int)] + pieces(s.skip(piece.len as int)),
    }
}

#[via_fn]
proof fn pieces_decreases(s: Seq<u8>) {
    lemma_first_piece(s);
}

/// Those of `items` that `kept` says to keep, in order.
pub open spec fn selected(items: Seq<Seq<u8>>, kept: Seq<bool>) -> Seq<Seq<u8>>
    decreases items.len(),
{
    if items.len() == 0 {
        seq![]
    } else {
        (if kept.first() {
            seq![items.first()]
        } else {
            seq![]
        }) + selected(items.drop_first(), kept.drop_first())
    }
}

/// The pieces and what is held back make up the input, whatever the matcher does.
pub proof fn law_pieces_make_up_the_input(matcher: MatcherState, s: Seq<u8>, clock: Seq<nat>)
    ensures
        pieces(s).flatten() + filtered(matcher, s, clock).held == s,
    decreases s.len(),
{
    lemma_first_piece(s);
    match first_piece(s) {
        None => {
            assert(Seq::<u8>::empty() + s =~= s);
        },
        Some(piece) => {
            let bytes = s.take(piece.len as int);
            let rest = s.skip(piece.len as int);
            if piece.command {
                let current = matcher.expired(clock.first());
                law_pieces_make_up_the_input(current.after(bytes), rest, clock.drop_first());
            } else {
                law_pieces_make_up_the_input(matcher, rest, clock);
            }
            let held = filtered(matcher, s, clock).held;
            assert(pieces(s).drop_first() =~= pieces(rest));
            assert(pieces(s).flatten() == bytes + pieces(rest).flatten());
            assert(pieces(s).flatten() + held =~= bytes + (pieces(rest).flatten() + held));
            assert(bytes + rest =~= s);
        },
    }
}

/// What is forwarded are the pieces of the input, in order and unchanged. All
/// that is ever left out are whole replies.
pub proof fn law_only_replies_are_taken_out(
    matcher: MatcherState,
    s: Seq<u8>,
    clock: Seq<nat>,
) -> (kept: Seq<bool>)
    ensures
        kept.len() == pieces(s).len(),
        filtered(matcher, s, clock).output == selected(pieces(s), kept),
        forall|k: int| 0 <= k < kept.len() && !kept[k] ==> is_reply(#[trigger] pieces(s)[k]),
    decreases s.len(),
{
    lemma_first_piece(s);
    match first_piece(s) {
        None => Seq::empty(),
        Some(piece) => {
            let bytes = s.take(piece.len as int);
            let rest = s.skip(piece.len as int);
            let current = matcher.expired(clock.first());
            let keep = !piece.command || current.answer(bytes) is None;
            let later = if piece.command {
                law_only_replies_are_taken_out(current.after(bytes), rest, clock.drop_first())
            } else {
                law_only_replies_are_taken_out(matcher, rest, clock)
            };
            let kept = seq![keep] + later;
            assert(pieces(s).drop_first() =~= pieces(rest));
            assert(kept.drop_first() =~= later);
            assert forall|k: int| 0 <= k < kept.len() && !kept[k] implies is_reply(
                #[trigger] pieces(s)[k],
            ) by {
                if k > 0 {
                    assert(!later[k - 1]);
                    assert(is_reply(pieces(rest)[k - 1]));
                }
            }
            kept
        },
    }
}

/// Keeping every item.
proof fn lemma_all_selected(items: Seq<Seq<u8>>, kept: Seq<bool>)
    requires
        kept.len() == items.len(),
        forall|k: int| 0 <= k < kept.len() ==> #[trigger] kept[k],
    ensures
        selected(items, kept) == items,
    decreases items.len(),
{
    if items.len() > 0 {
        let later = kept.drop_first();
        assert forall|k: int| 0 <= k < later.len() implies #[trigger] later[k] by {
            assert(later[k] == kept[k + 1]);
        }
        lemma_all_selected(items.drop_first(), later);
        assert(kept[0]);
        assert(seq![items.first()] + items.drop_first() =~= items);
    } else {
        assert(selected(items, kept) =~= items);
    }
}

/// Input without replies in it is forwarded or held back as it is, in order.
pub proof fn law_unrelated_input_is_preserved(
    matcher: MatcherState,
    s: Seq<u8>,
    clock: Seq<nat>,
)
    requires
        forall|k: int| 0 <= k < pieces(s).len() ==> !is_reply(#[trigger] pieces(s)[k]),
    ensures
        filtered(matcher, s, clock).output.flatten() + filtered(matcher, s, clock).held == s,
{
    let kept = law_only_replies_are_taken_out(matcher, s, clock);
    assert forall|k: int| 0 <= k < kept.len() implies #[trigger] kept[k] by {
        assert(!is_reply(pieces(s)[k]));
    }
    lemma_all_selected(pieces(s), kept);
    law_pieces_make_up_the_input(matcher, s, clock);
}

/// A matcher that waits for nothing takes nothing out of the input.
proof fn lemma_idle_matcher(matcher: MatcherState, s: Seq<u8>, clock: Seq<nat>)
    requires
        !matcher.is_waiting(),
    ensures
        ({
            let outcome = filtered(matcher, s, clock);
            &&& outcome.output.flatten() + outcome.held == s
            &&& outcome.responses.len() == 0
            &&& outcome.matcher == matcher
        }),
    decreases s.len(),
{
    lemma_first_piece(s);
    match first_piece(s) {
        None => {
            assert(Seq::<u8>::empty() + s =~= s);
        },
        Some(piece) => {
            let bytes = s.take(piece.len as int);
            let rest = s.skip(piece.len as int);
            let current = matcher.expired(clock.first());
            assert(current == matcher);
            let later = if piece.command {
                clock.drop_first()
            } else {
                clock
            };
            lemma_idle_matcher(matcher, rest, later);
            let tail = filtered(matcher, rest, later);
            let outcome = filtered(matcher, s, clock);
            assert(outcome.output == seq![bytes] + tail.output);
            assert(outcome.output.drop_first() =~= tail.output);
            assert(outcome.output.flatten() + outcome.held =~= bytes + (tail.output.flatten()
                + tail.held));
            assert(bytes + rest =~= s);
        },
    }
}

/// Input is answered at most once, and not at all unless a transfer is expected.
pub proof fn law_at_most_one_response(matcher: MatcherState, s: Seq<u8>, clock: Seq<nat>)
    ensures
        filtered(matcher, s, clock).responses.len() <= 1,
        filtered(matcher, s, clock).responses.len() == 1 ==> {
            &&& matcher.expected matches Some(e)
            &&& filtered(matcher, s, clock).responses[0].transfer_id == e.transfer_id
            &&& filtered(matcher, s, clock).responses[0].image_id == e.image_id
            &&& filtered(matcher, s, clock).matcher.expected is None
        },
        matcher.expected is None ==> filtered(matcher, s, clock).matcher.expected is None,
    decreases s.len(),
{
    lemma_first_piece(s);
    if let Some(piece) = first_piece(s) {
        let bytes = s.take(piece.len as int);
        let rest = s.skip(piece.len as int);
        if piece.command {
            let current = matcher.expired(clock.first());
            law_at_most_one_response(current.after(bytes), rest, clock.drop_first());
        } else {
            law_at_most_one_response(matcher, rest, clock);
        }
    }
}

/// No occurrence is shorter than the pattern.
proof fn lemma_short_input_has_no_prefix(s: Seq<u8>)
    requires
        s.len() < 3,
    ensures
        find(s, kitty_prefix()) is None,
{
    lemma_find_nothing(s, kitty_prefix());
}

/// What is held back of input without a start of a command stays held back.
proof fn lemma_unfinished_prefix(s: Seq<u8>)
    requires
        find(s, kitty_prefix()) is None,
    ensures
        unfinished_prefix(s) <= s.len(),
        s.skip(s.len() - unfinished_prefix(s)) == kitty_prefix().take(unfinished_prefix(s) as int),
        first_piece(s.skip(s.len() - unfinished_prefix(s))) is None,
{
    let keep = unfinished_prefix(s) as int;
    let h = s.skip(s.len() - keep);
    assert(h =~= kitty_prefix().take(keep));
    lemma_short_input_has_no_prefix(h);
    assert(h.subrange(h.len() - keep, h.len() as int) =~= h);
    if keep == 1 {
        assert(unfinished_prefix(h) == 1);
    }
}

/// What is held back is a reply in the making: it is short, it starts with the
/// escape byte, and without new input nothing more comes of it.
pub proof fn law_held_input_is_settled(matcher: MatcherState, s: Seq<u8>, clock: Seq<nat>)
    ensures
        ({
            let held = filtered(matcher, s, clock).held;
            &&& first_piece(held) is None
            &&& held.len() <= MAX_RESPONSE_BYTES
            &&& held.len() > 0 ==> held[0] == ESCAPE
        }),
    decreases s.len(),
{
    lemma_first_piece(s);
    match first_piece(s) {
        None => {
            lemma_find(s, kitty_prefix());
            if find(s, kitty_prefix()) is None {
                lemma_unfinished_prefix(s);
                assert(s.skip(0) =~= s);
            } else if s.len() > 0 {
                assert(s.subrange(0, 3)[0] == ESCAPE);
            }
        },
        Some(piece) => {
            let bytes = s.take(piece.len as int);
            let rest = s.skip(piece.len as int);
            if piece.command {
                let current = matcher.expired(clock.first());
                law_held_input_is_settled(current.after(bytes), rest, clock.drop_first());
            } else {
                law_held_input_is_settled(matcher, rest, clock);
            }
        },
    }
}

/// Whatever was pushed, what is held back afterwards is a reply in the making.
pub proof fn law_held_input_is_settled_after_push(
    held: Seq<u8>,
    bytes: Seq<u8>,
    matcher: MatcherState,
    gate: nat,
    clock: Seq<nat>,
)
    ensures
        ({
            let left = pushed(held, bytes, matcher, gate, clock).held;
            &&& first_piece(left) is None
            &&& left.len() <= MAX_RESPONSE_BYTES
            &&& left.len() > 0 ==> left[0] == ESCAPE
        }),
{
    law_held_input_is_settled(matcher.expired(gate), held + bytes, clock);
    lemma_short_input_has_no_prefix(Seq::<u8>::empty());
}

/// More input behind `a` moves no occurrence in `a`.
proof fn lemma_find_in_longer(a: Seq<u8>, b: Seq<u8>, pattern: Seq<u8>)
    ensures
        find(a, pattern) matches Some(i) ==> find(a + b, pattern) == Some(i),
        forall|j: int|
            0 <= j && j + pattern.len() <= a.len() ==> #[trigger] occurs_at(a + b, pattern, j)
                == occurs_at(a, pattern, j),
{
    assert forall|j: int| 0 <= j && j + pattern.len() <= a.len() implies #[trigger] occurs_at(
        a + b,
        pattern,
        j,
    ) == occurs_at(a, pattern, j) by {
        assert((a + b).subrange(j, j + pattern.len()) =~= a.subrange(j, j + pattern.len()));
    }
    lemma_find(a, pattern);
    if let Some(i) = find(a, pattern) {
        assert forall|j: int| 0 <= j < i implies !occurs_at(a + b, pattern, j) by {
            assert(!occurs_at(a, pattern, j));
        }
        lemma_find_unique(a + b, pattern, i as int);
    }
}

/// Leaving out input before an occurrence shifts it.
proof fn lemma_find_in_rest(s: Seq<u8>, k: int, pattern: Seq<u8>)
    requires
        0 <= k <= s.len(),
        find(s, pattern) matches Some(i) ==> k <= i,
    ensures
        match find(s, pattern) {
            Some(i) => find(s.skip(k), pattern) == Some((i - k) as nat),
            None => find(s.skip(k), pattern) is None,
        },
{
    assert forall|j: int| 0 <= j implies #[trigger] occurs_at(s.skip(k), pattern, j) == occurs_at(
        s,
        pattern,
        j + k,
    ) by {
        if j + k + pattern.len() <= s.len() {
            assert(s.skip(k).subrange(j, j + pattern.len()) =~= s.subrange(
                j + k,
                j + k + pattern.len(),
            ));
        }
    }
    lemma_find(s, pattern);
    match find(s, pattern) {
        Some(i) => {
            assert(occurs_at(s.skip(k), pattern, i - k));
            lemma_find_unique(s.skip(k), pattern, i - k);
        },
        None => {
            lemma_find_nothing(s.skip(k), pattern);
        },
    }
}

/// What ends `s` ends every longer part of it too.
proof fn lemma_unfinished_prefix_in_rest(s: Seq<u8>, k: int)
    requires
        0 <= k,
        k + unfinished_prefix(s) <= s.len(),
        find(s, kitty_prefix()) is None,
    ensures
        unfinished_prefix(s.skip(k)) == unfinished_prefix(s),
{
    let rest = s.skip(k);
    let pair = kitty_prefix().take(2);
    let single = kitty_prefix().take(1);
    if rest.len() >= 2 {
        assert(rest.subrange(rest.len() - 2, rest.len() as int) =~= s.subrange(
            s.len() - 2,
            s.len() as int,
        ));
    }
    if rest.len() >= 1 {
        assert(rest.subrange(rest.len() - 1, rest.len() as int) =~= s.subrange(
            s.len() - 1,
            s.len() as int,
        ));
    }
}

/// The three bytes that start a command stand in `s` at position `i`.
pub open spec fn starts_command(s: Seq<u8>, i: int) -> bool {
    0 <= i && i + 3 <= s.len() && s[i] == 0x1b && s[i + 1] == 0x5f && s[i + 2] == 0x47
}

/// The two bytes that end a command stand in `s` at position `i`.
pub open spec fn ends_command(s: Seq<u8>, i: int) -> bool {
    0 <= i && i + 2 <= s.len() && s[i] == 0x1b && s[i + 1] == 0x5c
}

/// Some command in `s` has not ended after 4096 bytes: it starts that far from
/// the end of `s`, and nothing behind its start ends it.
pub open spec fn overflows(s: Seq<u8>) -> bool {
    exists|i: int|
        {
            &&& #[trigger] starts_command(s, i)
            &&& s.len() - i > 4096
            &&& forall|j: int| i <= j ==> !#[trigger] ends_command(s, j)
        }
}

/// Starts and ends of commands, seen on their bytes.
proof fn lemma_marks(s: Seq<u8>, i: int)
    ensures
        occurs_at(s, kitty_prefix(), i) <==> starts_command(s, i),
        occurs_at(s, kitty_suffix(), i) <==> ends_command(s, i),
{
    if 0 <= i && i + 3 <= s.len() {
        let here = s.subrange(i, i + 3);
        assert(here[0] == s[i] && here[1] == s[i + 1] && here[2] == s[i + 2]);
        if starts_command(s, i) {
            assert(here =~= kitty_prefix());
        }
    }
    if 0 <= i && i + 2 <= s.len() {
        let here = s.subrange(i, i + 2);
        assert(here[0] == s[i] && here[1] == s[i + 1]);
        if ends_command(s, i) {
            assert(here =~= kitty_suffix());
        }
    }
}

/// A command that is too long at the end of some input is too long behind more
/// input as well.
proof fn lemma_overflow_in_rest(s: Seq<u8>, k: int)
    requires
        0 <= k <= s.len(),
        overflows(s.skip(k)),
    ensures
        overflows(s),
{
    let rest = s.skip(k);
    let i = choose|i: int|
        {
            &&& #[trigger] starts_command(rest, i)
            &&& rest.len() - i > 4096
            &&& forall|j: int| i <= j ==> !#[trigger] ends_command(rest, j)
        };
    assert(starts_command(s, i + k));
    assert forall|j: int| i + k <= j implies !#[trigger] ends_command(s, j) by {
        assert(!ends_command(rest, j - k));
    }
}

/// Input that starts with a command without an end is too long from 4097 bytes on.
proof fn lemma_overflow_at_start(s: Seq<u8>)
    requires
        find(s, kitty_prefix()) == Some(0nat),
        find(s, kitty_suffix()) is None,
        s.len() > 4096,
    ensures
        overflows(s),
{
    lemma_find(s, kitty_prefix());
    lemma_find(s, kitty_suffix());
    lemma_marks(s, 0);
    assert(starts_command(s, 0));
    assert forall|j: int| 0 <= j implies !#[trigger] ends_command(s, j) by {
        lemma_marks(s, j);
    }
}

/// Two outcomes of which the first forwards `bytes` before all that the second
/// forwards, and which agree otherwise.
spec fn forwards_before(outcome: Outcome, bytes: Seq<u8>, rest: Outcome) -> bool {
    &&& outcome.output.flatten() == bytes + rest.output.flatten()
    &&& outcome.responses == rest.responses
    &&& outcome.matcher == rest.matcher
    &&& outcome.held == rest.held
}

/// It does not matter where plain input is cut.
proof fn lemma_plain_input_can_be_cut(
    matcher: MatcherState,
    s: Seq<u8>,
    clock: Seq<nat>,
    k: int,
)
    requires
        first_piece(s) matches Some(piece) && !piece.command && 0 < k <= piece.len,
        find(s, kitty_prefix()) != Some(0nat),
    ensures
        forwards_before(
            filtered(matcher, s, clock),
            s.take(k),
            filtered(matcher, s.skip(k), clock),
        ),
        command_count(s) == command_count(s.skip(k)),
{
    lemma_first_piece(s);
    let n = first_piece(s)->0.len as int;
    let last = filtered(matcher, s.skip(n), clock);
    let outcome = filtered(matcher, s, clock);
    assert(outcome.output.drop_first() =~= last.output);
    assert(outcome.output.flatten() == s.take(n) + last.output.flatten());
    assert(outcome.responses =~= last.responses);
    if k < n {
        let rest = s.skip(k);
        lemma_find(s, kitty_prefix());
        lemma_find_in_rest(s, k, kitty_prefix());
        if find(s, kitty_prefix()) is None {
            lemma_unfinished_prefix_in_rest(s, k);
        }
        assert(first_piece(rest) == Some(Piece { len: (n - k) as nat, command: false }));
        assert(rest.skip(n - k) =~= s.skip(n));
        let shorter = filtered(matcher, rest, clock);
        assert(shorter.output.drop_first() =~= last.output);
        assert(shorter.output.flatten() == rest.take(n - k) + last.output.flatten());
        assert(shorter.responses =~= last.responses);
        assert(s.take(n) =~= s.take(k) + rest.take(n - k));
        assert(outcome.output.flatten() =~= s.take(k) + shorter.output.flatten());
    }
}

/// Behind input without a start of a command, none starts before what is held back.
proof fn lemma_plain_input_stays_plain(a: Seq<u8>, b: Seq<u8>)
    requires
        find(a, kitty_prefix()) is None,
        unfinished_prefix(a) < a.len(),
    ensures
        first_piece(a + b) matches Some(piece) && !piece.command && a.len() - unfinished_prefix(a)
            <= piece.len,
        find(a + b, kitty_prefix()) != Some(0nat),
{
    let prefix = kitty_prefix();
    let whole = a + b;
    let m = a.len() - unfinished_prefix(a);
    lemma_find(a, prefix);
    lemma_find(whole, prefix);
    lemma_find_in_longer(a, b, prefix);
    match find(whole, prefix) {
        Some(p) => {
            if p < m {
                let found = whole.subrange(p as int, p as int + 3);
                assert(!occurs_at(a, prefix, p as int));
                assert(p + 3 > a.len());
                let tail = a.subrange(p as int, a.len() as int);
                assert(tail.len() == 1 || tail.len() == 2);
                assert(tail =~= prefix.take(tail.len() as int)) by {
                    assert forall|i: int| 0 <= i < tail.len() implies tail[i] == prefix[i] by {
                        assert(tail[i] == found[i]);
                    }
                }
                assert(false);
            }
        },
        None => {
            let keep = unfinished_prefix(whole) as int;
            lemma_unfinished_prefix(whole);
            if keep > b.len() {
                if b.len() == 0 {
                    assert(whole =~= a);
                } else {
                    let end = whole.skip(whole.len() - keep);
                    assert(end[0] == ESCAPE);
                    assert(a.subrange(a.len() - 1, a.len() as int) =~= prefix.take(1)) by {
                        assert(a.last() == end[0]);
                    }
                }
            }
        },
    }
}

/// Filtering `a` and then `b` comes to the same as filtering both at once: the
/// same bytes are forwarded, the same responses are found, and the same bytes
/// are held back.
pub open spec fn comes_to_the_same(
    matcher: MatcherState,
    a: Seq<u8>,
    b: Seq<u8>,
    clock: Seq<nat>,
    later: Seq<nat>,
) -> bool {
    let first = filtered(matcher, a, clock);
    let second = filtered(first.matcher, first.held + b, later);
    let whole = filtered(matcher, a + b, clock + later);
    &&& whole.output.flatten() == first.output.flatten() + second.output.flatten()
    &&& whole.responses == first.responses + second.responses
    &&& whole.matcher == second.matcher
    &&& whole.held == second.held
    &&& command_count(a + b) == command_count(a) + command_count(first.held + b)
}

/// Fragments, where the first one starts with a command.
proof fn lemma_fragments_behind_command(
    matcher: MatcherState,
    a: Seq<u8>,
    b: Seq<u8>,
    clock: Seq<nat>,
    later: Seq<nat>,
    n: int,
)
    requires
        first_piece(a) == Some(Piece { len: n as nat, command: true }),
        0 < n <= a.len(),
        clock.len() > 0,
        comes_to_the_same(
            matcher.expired(clock.first()).after(a.take(n)),
            a.skip(n),
            b,
            clock.drop_first(),
            later,
        ),
    ensures
        comes_to_the_same(matcher, a, b, clock, later),
{
    let bytes = a.take(n);
    let rest = a.skip(n);
    let current = matcher.expired(clock.first());
    let given = current.answer(bytes);
    let first = filtered(matcher, a, clock);
    let second = filtered(first.matcher, first.held + b, later);
    let whole = filtered(matcher, a + b, clock + later);
    let tail = filtered(current.after(bytes), rest, clock.drop_first());
    let tail_whole = filtered(current.after(bytes), rest + b, clock.drop_first() + later);
    assert((a + b).take(n) =~= bytes);
    assert((a + b).skip(n) =~= rest + b);
    lemma_find_in_longer(a, b, kitty_prefix());
    lemma_find_in_longer(a, b, kitty_suffix());
    assert(first_piece(a + b) == first_piece(a));
    assert((clock + later).first() == clock.first());
    assert((clock + later).drop_first() =~= clock.drop_first() + later);
    assert(whole == tail_whole.behind(forwarded(bytes, given), answered(given)));
    assert(first == tail.behind(forwarded(bytes, given), answered(given)));
    lemma_flatten_concat(forwarded(bytes, given), tail.output);
    lemma_flatten_concat(forwarded(bytes, given), tail_whole.output);
    assert(whole.output.flatten() =~= first.output.flatten() + second.output.flatten());
    assert(whole.responses =~= first.responses + second.responses);
}

/// Fragments, where the first one starts with plain input before a command.
proof fn lemma_fragments_behind_plain_input(
    matcher: MatcherState,
    a: Seq<u8>,
    b: Seq<u8>,
    clock: Seq<nat>,
    later: Seq<nat>,
    n: int,
)
    requires
        first_piece(a) == Some(Piece { len: n as nat, command: false }),
        find(a, kitty_prefix()) == Some(n as nat),
        0 < n <= a.len(),
        comes_to_the_same(matcher, a.skip(n), b, clock, later),
    ensures
        comes_to_the_same(matcher, a, b, clock, later),
{
    let bytes = a.take(n);
    let rest = a.skip(n);
    let first = filtered(matcher, a, clock);
    let second = filtered(first.matcher, first.held + b, later);
    let whole = filtered(matcher, a + b, clock + later);
    let tail = filtered(matcher, rest, clock);
    let tail_whole = filtered(matcher, rest + b, clock + later);
    assert((a + b).take(n) =~= bytes);
    assert((a + b).skip(n) =~= rest + b);
    lemma_find_in_longer(a, b, kitty_prefix());
    assert(first_piece(a + b) == first_piece(a));
    assert(whole == tail_whole.behind(seq![bytes], seq![]));
    assert(first == tail.behind(seq![bytes], seq![]));
    lemma_flatten_concat(seq![bytes], tail.output);
    lemma_flatten_concat(seq![bytes], tail_whole.output);
    assert(whole.output.flatten() =~= first.output.flatten() + second.output.flatten());
    assert(whole.responses =~= first.responses + second.responses);
}

/// Fragments, where no command starts in the first one.
proof fn lemma_fragments_without_command(
    matcher: MatcherState,
    a: Seq<u8>,
    b: Seq<u8>,
    later: Seq<nat>,
)
    requires
        find(a, kitty_prefix()) is None,
        unfinished_prefix(a) < a.len(),
    ensures
        comes_to_the_same(matcher, a, b, seq![], later),
        command_count(a) == 0,
{
    let n = a.len() - unfinished_prefix(a);
    let bytes = a.take(n);
    let rest = a.skip(n);
    let nothing = Seq::<nat>::empty();
    let first = filtered(matcher, a, nothing);
    let second = filtered(first.matcher, first.held + b, later);
    let whole = filtered(matcher, a + b, nothing + later);
    assert((a + b).take(n) =~= bytes);
    assert((a + b).skip(n) =~= rest + b);
    assert(nothing + later =~= later);
    lemma_unfinished_prefix(a);
    lemma_plain_input_stays_plain(a, b);
    assert(command_count(rest) == 0);
    lemma_plain_input_can_be_cut(matcher, a + b, later, n);
    let tail = Outcome { output: seq![], responses: seq![], matcher, held: rest };
    assert(first_piece(a) == Some(Piece { len: n as nat, command: false }));
    assert(filtered(matcher, rest, nothing) == tail);
    assert(first == tail.behind(seq![bytes], seq![]));
    assert(first.output =~= seq![bytes]);
    first.output.lemma_flatten_one_element();
    assert(first.responses + second.responses =~= second.responses);
}

/// It does not matter in which fragments input arrives. The one exception is
/// an unfinished command that grows too long before its end arrives.
pub proof fn law_fragments_do_not_matter(
    matcher: MatcherState,
    a: Seq<u8>,
    b: Seq<u8>,
    clock: Seq<nat>,
    later: Seq<nat>,
)
    requires
        !overflows(a),
        clock.len() == command_count(a),
    ensures
        comes_to_the_same(matcher, a, b, clock, later),
    decreases a.len(),
{
    lemma_first_piece(a);
    match first_piece(a) {
        None => {
            let first = filtered(matcher, a, clock);
            let second = filtered(first.matcher, first.held + b, later);
            assert(clock + later =~= later);
            assert(first.output.flatten() + second.output.flatten() =~= second.output.flatten());
            assert(first.responses + second.responses =~= second.responses);
        },
        Some(piece) => {
            let n = piece.len as int;
            if overflows(a.skip(n)) {
                lemma_overflow_in_rest(a, n);
            }
            if piece.command {
                law_fragments_do_not_matter(
                    matcher.expired(clock.first()).after(a.take(n)),
                    a.skip(n),
                    b,
                    clock.drop_first(),
                    later,
                );
                lemma_fragments_behind_command(matcher, a, b, clock, later, n);
            } else if find(a, kitty_prefix()) is Some {
                if find(a, kitty_prefix()) == Some(0nat) {
                    lemma_overflow_at_start(a);
                }
                law_fragments_do_not_matter(matcher, a.skip(n), b, clock, later);
                lemma_fragments_behind_plain_input(matcher, a, b, clock, later, n);
            } else {
                lemma_fragments_without_command(matcher, a, b, later);
                assert(clock =~= seq![]);
            }
        },
    }
}

/// Pushing `a` and then `b` forwards or holds back the same bytes, in the same
/// order, and finds the same responses as pushing both at once, provided that
/// nothing runs out in between and no unfinished command in `a` grows too
/// long. As long as a reply is awaited, it holds back the same bytes as well.
pub proof fn law_pushes_do_not_matter(
    held: Seq<u8>,
    a: Seq<u8>,
    b: Seq<u8>,
    matcher: MatcherState,
    gate: nat,
    clock: Seq<nat>,
    later_gate: nat,
    later: Seq<nat>,
)
    requires
        !overflows(held + a),
        clock.len() == command_count(held + a),
        pushed(held, a, matcher, gate, clock).matcher.expired(later_gate) == pushed(
            held,
            a,
            matcher,
            gate,
            clock,
        ).matcher,
    ensures
        ({
            let first = pushed(held, a, matcher, gate, clock);
            let second = pushed(first.held, b, first.matcher, later_gate, later);
            let whole = pushed(held, a + b, matcher, gate, clock + later);
            &&& whole.output.flatten() + whole.held == first.output.flatten()
                + second.output.flatten() + second.held
            &&& whole.responses == first.responses + second.responses
            &&& whole.matcher == second.matcher
            &&& first.matcher.is_waiting() ==> whole.held == second.held
        }),
{
    let current = matcher.expired(gate);
    let first = pushed(held, a, matcher, gate, clock);
    let second = pushed(first.held, b, first.matcher, later_gate, later);
    let whole = pushed(held, a + b, matcher, gate, clock + later);
    assert(held + (a + b) =~= (held + a) + b);
    if current.is_waiting() {
        law_fragments_do_not_matter(current, held + a, b, clock, later);
        let rest = filtered(first.matcher, first.held + b, later);
        if !first.matcher.is_waiting() {
            lemma_idle_matcher(first.matcher, first.held + b, later);
            second.output.lemma_flatten_one_element();
            assert(second.responses =~= rest.responses);
            assert(second.output.flatten() + second.held =~= rest.output.flatten() + rest.held);
        }
        assert(whole.output.flatten() + whole.held =~= first.output.flatten()
            + second.output.flatten() + second.held);
    } else {
        first.output.lemma_flatten_one_element();
        second.output.lemma_flatten_one_element();
        whole.output.lemma_flatten_one_element();
        assert(whole.output.flatten() + whole.held =~= first.output.flatten()
            + second.output.flatten() + second.held);
        assert(whole.responses =~= first.responses + second.responses);
    }
}

/// While no reply is awaited, all input is forwarded at once, with whatever was
/// held back before it.
pub proof fn law_idle_input_is_forwarded(
    held: Seq<u8>,
    bytes: Seq<u8>,
    matcher: MatcherState,
    gate: nat,
    clock: Seq<nat>,
)
    requires
        !matcher.expired(gate).is_waiting(),
    ensures
        pushed(held, bytes, matcher, gate, clock).output == seq![held + bytes],
        pushed(held, bytes, matcher, gate, clock).responses.len() == 0,
        pushed(held, bytes, matcher, gate, clock).matcher == matcher.expired(gate),
        pushed(held, bytes, matcher, gate, clock).held.len() == 0,
{
}

/// `bytes` as a list of one part, or of none if there are no bytes.
pub open spec fn part(bytes: Seq<u8>) -> Seq<Seq<u8>> {
    if bytes.len() == 0 {
        seq![]
    } else {
        seq![bytes]
    }
}

/// Input without an escape byte is forwarded as it is.
proof fn lemma_no_escape(matcher: MatcherState, text: Seq<u8>, clock: Seq<nat>)
    requires
        !text.contains(ESCAPE),
    ensures
        filtered(matcher, text, clock) == (Outcome {
            output: part(text),
            responses: seq![],
            matcher,
            held: seq![],
        }),
{
    assert forall|j: int| 0 <= j < text.len() implies text[j] != 0x1b by {
        assert(text.contains(text[j]));
    }
    law_text_is_forwarded(matcher, text, clock);
    assert(text.take(text.len() as int) =~= text);
    assert(filtered(matcher, text, clock) =~= (Outcome {
        output: part(text),
        responses: seq![],
        matcher,
        held: seq![],
    }));
}

/// A reply without an escape byte inside is a command of its own.
proof fn lemma_reply_is_a_command(reply: Seq<u8>)
    requires
        is_reply(reply),
        !payload(reply).contains(ESCAPE),
    ensures
        starts_command(reply, 0),
        ends_command(reply, reply.len() - 2),
        forall|j: int| j < reply.len() - 2 ==> !#[trigger] ends_command(reply, j),
{
    let start = reply.subrange(0, 3);
    let end = reply.subrange(reply.len() - 2, reply.len() as int);
    assert(start == kitty_prefix());
    assert(end == kitty_suffix());
    assert(start[0] == reply[0] && start[1] == reply[1] && start[2] == reply[2]);
    assert(end[0] == reply[reply.len() - 2] && end[1] == reply[reply.len() - 1]);
    assert forall|j: int| j < reply.len() - 2 implies !#[trigger] ends_command(reply, j) by {
        if j >= 3 {
            assert(payload(reply)[j - 3] == reply[j]);
            assert(payload(reply).contains(payload(reply)[j - 3]));
        }
    }
}

/// A reply between typed text is offered to the matcher by itself, and the
/// text around it is forwarded, in order.
pub proof fn law_reply_is_separated_from_text(
    matcher: MatcherState,
    before: Seq<u8>,
    reply: Seq<u8>,
    after: Seq<u8>,
    now: nat,
)
    requires
        !before.contains(ESCAPE),
        !after.contains(ESCAPE),
        is_reply(reply),
        !payload(reply).contains(ESCAPE),
    ensures
        ({
            let answer = matcher.expired(now).answer(reply);
            filtered(matcher, before + reply + after, seq![now]) == (Outcome {
                output: part(before) + forwarded(reply, answer) + part(after),
                responses: answered(answer),
                matcher: matcher.expired(now).after(reply),
                held: seq![],
            })
        }),
{
    let s = before + reply + after;
    let rest = reply + after;
    let none = Seq::<nat>::empty();
    let current = matcher.expired(now);
    let answer = current.answer(reply);
    assert(s =~= before + rest);
    assert(seq![now] + none =~= seq![now]);
    lemma_reply_is_a_command(reply);
    lemma_no_escape(current.after(reply), after, none);
    law_command_is_offered(matcher, reply, after, now, none);
    let middle = filtered(matcher, rest, seq![now]);
    assert(middle.output =~= forwarded(reply, answer) + part(after));
    assert(middle.responses =~= answered(answer));
    if before.len() > 0 {
        assert(starts_command(rest, 0));
        assert forall|i: int| i < before.len() implies !#[trigger] starts_command(
            before + rest,
            i,
        ) by {
            if 0 <= i {
                assert(before.contains(before[i]));
            }
        }
        law_text_before_command_is_forwarded(matcher, before, rest, seq![now]);
    } else {
        assert(s =~= rest);
    }
    assert(filtered(matcher, s, seq![now]).output =~= part(before) + forwarded(reply, answer)
        + part(after));
}

/// The expected reply is lifted out of the text around it: the response is
/// found, and nothing of the reply is forwarded.
pub proof fn law_expected_reply_is_lifted_out(
    matcher: MatcherState,
    before: Seq<u8>,
    reply: Seq<u8>,
    after: Seq<u8>,
    now: nat,
)
    requires
        !before.contains(ESCAPE),
        !after.contains(ESCAPE),
        !payload(reply).contains(ESCAPE),
        matcher.expired(now).is_expected_reply(reply),
    ensures
        filtered(matcher, before + reply + after, seq![now]) == (Outcome {
            output: part(before) + part(after),
            responses: seq![
                Response {
                    transfer_id: matcher.expected->0.transfer_id,
                    image_id: matcher.expected->0.image_id,
                    success: reply_message(reply) == ok_message(),
                },
            ],
            matcher: MatcherState { expected: None, retired: matcher.expired(now).retired },
            held: seq![],
        }),
{
    law_reply_is_separated_from_text(matcher, before, reply, after, now);
    assert(part(before) + Seq::<Seq<u8>>::empty() + part(after) =~= part(before) + part(after));
}

/// A late reply is dropped from the text around it: there is no response, and
/// nothing of the reply is forwarded.
pub proof fn law_late_reply_is_left_out(
    matcher: MatcherState,
    before: Seq<u8>,
    reply: Seq<u8>,
    after: Seq<u8>,
    now: nat,
)
    requires
        !before.contains(ESCAPE),
        !after.contains(ESCAPE),
        !payload(reply).contains(ESCAPE),
        matcher.expired(now).is_late_reply(reply),
    ensures
        filtered(matcher, before + reply + after, seq![now]) == (Outcome {
            output: part(before) + part(after),
            responses: seq![],
            matcher: MatcherState { expected: matcher.expired(now).expected, retired: None },
            held: seq![],
        }),
{
    law_reply_is_separated_from_text(matcher, before, reply, after, now);
    assert(part(before) + Seq::<Seq<u8>>::empty() + part(after) =~= part(before) + part(after));
}

/// A command without an end is held back whole, as long as it has at most 4096
/// bytes, whatever stands in it.
pub proof fn law_unfinished_command_is_held(matcher: MatcherState, s: Seq<u8>, clock: Seq<nat>)
    requires
        starts_command(s, 0),
        forall|j: int| !#[trigger] ends_command(s, j),
        s.len() <= 4096,
    ensures
        filtered(matcher, s, clock).output.len() == 0,
        filtered(matcher, s, clock).responses.len() == 0,
        filtered(matcher, s, clock).matcher == matcher,
        filtered(matcher, s, clock).held == s,
        command_count(s) == 0,
{
    lemma_marks(s, 0);
    lemma_find_unique(s, kitty_prefix(), 0);
    assert forall|j: int| 0 <= j implies !occurs_at(s, kitty_suffix(), j) by {
        lemma_marks(s, j);
        assert(!ends_command(s, j));
    }
    lemma_find_nothing(s, kitty_suffix());
}

/// A command without an end that has more than 4096 bytes is forwarded whole,
/// in one part, and nothing is held back.
pub proof fn law_overlong_command_is_forwarded(
    matcher: MatcherState,
    s: Seq<u8>,
    clock: Seq<nat>,
)
    requires
        starts_command(s, 0),
        forall|j: int| !#[trigger] ends_command(s, j),
        s.len() > 4096,
    ensures
        filtered(matcher, s, clock).output == seq![s],
        filtered(matcher, s, clock).responses.len() == 0,
        filtered(matcher, s, clock).matcher == matcher,
        filtered(matcher, s, clock).held.len() == 0,
        command_count(s) == 0,
{
    lemma_marks(s, 0);
    lemma_find_unique(s, kitty_prefix(), 0);
    assert forall|j: int| 0 <= j implies !occurs_at(s, kitty_suffix(), j) by {
        lemma_marks(s, j);
        assert(!ends_command(s, j));
    }
    lemma_find_nothing(s, kitty_suffix());
    let nothing = s.skip(s.len() as int);
    lemma_short_input_has_no_prefix(nothing);
    assert(first_piece(nothing) is None);
    assert(s.take(s.len() as int) =~= s);
    assert(first_piece(s) == Some(Piece { len: s.len(), command: false }));
    let rest = filtered(matcher, nothing, clock);
    assert(filtered(matcher, s, clock) == rest.behind(seq![s], seq![]));
    assert(filtered(matcher, s, clock).output =~= seq![s]);
    assert(command_count(nothing) == 0);
}

/// Input in which no command starts is forwarded in one part, but for the bytes
/// at its end that could become the start of a command: an escape byte, or an
/// escape byte and an underscore. Those are held back.
pub proof fn law_text_is_forwarded(matcher: MatcherState, s: Seq<u8>, clock: Seq<nat>)
    requires
        forall|i: int| !#[trigger] starts_command(s, i),
    ensures
        ({
            let keep: int = if s.len() >= 2 && s[s.len() - 2] == 0x1b && s[s.len() - 1] == 0x5f {
                2
            } else if s.len() >= 1 && s[s.len() - 1] == 0x1b {
                1
            } else {
                0
            };
            let outcome = filtered(matcher, s, clock);
            &&& keep < s.len() ==> outcome.output == seq![s.take(s.len() - keep)]
            &&& keep == s.len() ==> outcome.output.len() == 0
            &&& outcome.responses.len() == 0
            &&& outcome.matcher == matcher
            &&& outcome.held == s.skip(s.len() - keep)
            &&& command_count(s) == 0
        }),
{
    assert forall|j: int| 0 <= j implies !occurs_at(s, kitty_prefix(), j) by {
        lemma_marks(s, j);
        assert(!starts_command(s, j));
    }
    lemma_find_nothing(s, kitty_prefix());
    lemma_unfinished_prefix(s);
    let keep = unfinished_prefix(s) as int;
    let two = s.len() >= 2 && s[s.len() - 2] == 0x1b && s[s.len() - 1] == 0x5f;
    let one = s.len() >= 1 && s[s.len() - 1] == 0x1b;
    assert(two <==> kitty_prefix().take(2).is_suffix_of(s)) by {
        let pair = kitty_prefix().take(2);
        if s.len() >= 2 {
            let end = s.subrange(s.len() - 2, s.len() as int);
            assert(end[0] == s[s.len() - 2] && end[1] == s[s.len() - 1]);
            if two {
                assert(pair =~= end);
            }
        }
    }
    assert(one <==> kitty_prefix().take(1).is_suffix_of(s)) by {
        let single = kitty_prefix().take(1);
        if s.len() >= 1 {
            let end = s.subrange(s.len() - 1, s.len() as int);
            assert(end[0] == s[s.len() - 1]);
            if one {
                assert(single =~= end);
            }
        }
    }
    if keep < s.len() {
        let rest = s.skip(s.len() - keep);
        let outcome = filtered(matcher, s, clock);
        assert(filtered(matcher, rest, clock).output.len() == 0);
        assert(outcome.output =~= seq![s.take(s.len() - keep)]);
        assert(command_count(rest) == 0);
    } else {
        assert(s.skip(0) =~= s);
    }
}

/// Text before the first start of a command is forwarded in one part, and the
/// rest is filtered as if it had come alone.
pub proof fn law_text_before_command_is_forwarded(
    matcher: MatcherState,
    text: Seq<u8>,
    rest: Seq<u8>,
    clock: Seq<nat>,
)
    requires
        text.len() > 0,
        starts_command(rest, 0),
        forall|i: int| i < text.len() ==> !#[trigger] starts_command(text + rest, i),
    ensures
        ({
            let outcome = filtered(matcher, text + rest, clock);
            let alone = filtered(matcher, rest, clock);
            &&& outcome.output == seq![text] + alone.output
            &&& outcome.responses == alone.responses
            &&& outcome.matcher == alone.matcher
            &&& outcome.held == alone.held
            &&& command_count(text + rest) == command_count(rest)
        }),
{
    let s = text + rest;
    let n = text.len() as int;
    assert(starts_command(s, n));
    lemma_marks(s, n);
    assert forall|j: int| 0 <= j < n implies !occurs_at(s, kitty_prefix(), j) by {
        lemma_marks(s, j);
        assert(!starts_command(s, j));
    }
    lemma_find_unique(s, kitty_prefix(), n);
    assert(s.take(n) =~= text);
    assert(s.skip(n) =~= rest);
    assert(filtered(matcher, s, clock).responses =~= filtered(matcher, rest, clock).responses);
}

/// A command is offered to the matcher whole, up to its first end, at the next
/// moment. It is forwarded in one part if the matcher has no use for it, and
/// taken out otherwise, and the response is found if the matcher gives one. What
/// stands behind it is filtered as if it had come alone.
pub proof fn law_command_is_offered(
    matcher: MatcherState,
    command: Seq<u8>,
    rest: Seq<u8>,
    now: nat,
    clock: Seq<nat>,
)
    requires
        starts_command(command, 0),
        ends_command(command, command.len() - 2),
        forall|j: int| j < command.len() - 2 ==> !#[trigger] ends_command(command, j),
    ensures
        ({
            let current = matcher.expired(now);
            let outcome = filtered(matcher, command + rest, seq![now] + clock);
            let alone = filtered(current.after(command), rest, clock);
            &&& current.answer(command) is None ==> outcome.output == seq![command] + alone.output
            &&& current.answer(command) is Some ==> outcome.output == alone.output
            &&& current.answer(command) matches Some(Some(response)) ==> outcome.responses == seq![
                response,
            ] + alone.responses
            &&& !(current.answer(command) matches Some(Some(_))) ==> outcome.responses
                == alone.responses
            &&& outcome.matcher == alone.matcher
            &&& outcome.held == alone.held
            &&& command_count(command + rest) == 1 + command_count(rest)
        }),
{
    let s = command + rest;
    let n = command.len() as int;
    let readings = seq![now] + clock;
    assert(starts_command(s, 0));
    lemma_marks(s, 0);
    lemma_find_unique(s, kitty_prefix(), 0);
    assert(ends_command(s, n - 2));
    lemma_marks(s, n - 2);
    assert forall|j: int| 0 <= j < n - 2 implies !occurs_at(s, kitty_suffix(), j) by {
        lemma_marks(s, j);
        assert(!ends_command(command, j));
    }
    lemma_find_unique(s, kitty_suffix(), n - 2);
    assert(s.take(n) =~= command);
    assert(s.skip(n) =~= rest);
    assert(readings.drop_first() =~= clock);
    let current = matcher.expired(now);
    let given = current.answer(command);
    let outcome = filtered(matcher, s, readings);
    let alone = filtered(current.after(command), rest, clock);
    assert(outcome == alone.behind(forwarded(command, given), answered(given)));
    if given is Some {
        assert(outcome.output =~= alone.output);
    }
    if !(given matches Some(Some(_))) {
        assert(outcome.responses =~= alone.responses);
    }
}

/// While a transfer is expected or an image is retired, new input is filtered
/// together with what was held back before it.
pub proof fn law_awaited_input_is_filtered(
    held: Seq<u8>,
    bytes: Seq<u8>,
    matcher: MatcherState,
    gate: nat,
    clock: Seq<nat>,
)
    requires
        matcher.expired(gate).expected is Some || matcher.expired(gate).retired is Some,
    ensures
        pushed(held, bytes, matcher, gate, clock) == filtered(
            matcher.expired(gate),
            held + bytes,
            clock,
        ),
        pushed(seq![], held + bytes, matcher, gate, clock) == pushed(
            held,
            bytes,
            matcher,
            gate,
            clock,
        ),
{
    assert(Seq::<u8>::empty() + (held + bytes) =~= held + bytes);
}

/// A command that arrives in two parts, cut anywhere, is held back at first and
/// then offered to the matcher whole, provided that a reply is awaited both times.
pub proof fn law_command_in_two_parts(
    matcher: MatcherState,
    command: Seq<u8>,
    cut: int,
    gate: nat,
    later_gate: nat,
    now: nat,
)
    requires
        starts_command(command, 0),
        ends_command(command, command.len() - 2),
        forall|j: int| j < command.len() - 2 ==> !#[trigger] ends_command(command, j),
        command.len() <= 4096,
        0 <= cut < command.len(),
        matcher.expired(gate).is_waiting(),
        matcher.expired(gate).expired(later_gate).is_waiting(),
    ensures
        ({
            let first = pushed(seq![], command.take(cut), matcher, gate, seq![]);
            let second = pushed(
                first.held,
                command.skip(cut),
                first.matcher,
                later_gate,
                seq![now],
            );
            let current = matcher.expired(gate).expired(later_gate).expired(now);
            &&& first.output.len() == 0
            &&& first.responses.len() == 0
            &&& first.held == command.take(cut)
            &&& current.answer(command) is None ==> second.output == seq![command]
            &&& current.answer(command) is Some ==> second.output.len() == 0
            &&& current.answer(command) matches Some(Some(response)) ==> second.responses == seq![
                response,
            ]
            &&& !(current.answer(command) matches Some(Some(_))) ==> second.responses.len() == 0
            &&& second.matcher == current.after(command)
            &&& second.held.len() == 0
        }),
{
    let a = command.take(cut);
    let b = command.skip(cut);
    let nothing = Seq::<u8>::empty();
    let waiting = matcher.expired(gate);
    let current = waiting.expired(later_gate);
    let none = Seq::<nat>::empty();
    assert(nothing + a =~= a);
    assert(a + b =~= command);
    assert forall|j: int| !#[trigger] ends_command(a, j) by {
        if ends_command(a, j) {
            assert(ends_command(command, j));
        }
    }
    if cut >= 3 {
        assert(starts_command(a, 0));
        law_unfinished_command_is_held(waiting, a, none);
    } else {
        law_text_is_forwarded(waiting, a, none);
        assert(a.skip(0) =~= a);
    }
    law_command_is_offered(current, command, nothing, now, none);
    assert(command + nothing =~= command);
    assert(seq![now] + none =~= seq![now]);
    law_text_is_forwarded(current.expired(now).after(command), nothing, none);
    let second = pushed(a, b, waiting, later_gate, seq![now]);
    let alone = filtered(current.expired(now).after(command), nothing, none);
    assert(alone.output =~= seq![]);
    assert(alone.responses =~= seq![]);
    if let Some(Some(response)) = current.expired(now).answer(command) {
        assert(second.responses =~= seq![response]);
    }
    if current.expired(now).answer(command) is None {
        assert(second.output =~= seq![command]);
    }
}

/// A reply about the expected image that arrives in two parts, cut anywhere, is
/// lifted out: nothing of it is forwarded, and its response is found, with
/// success if and only if its message is `OK`.
pub proof fn law_expected_reply_in_two_parts(
    matcher: MatcherState,
    control: Seq<u8>,
    message: Seq<u8>,
    cut: int,
    gate: nat,
    later_gate: nat,
    now: nat,
)
    requires
        !control.contains(0x3b),
        !control.contains(0x1b),
        !message.contains(0x1b),
        reply_of(control, message).len() <= 4096,
        0 <= cut < reply_of(control, message).len(),
        ({
            let current = matcher.expired(gate).expired(later_gate).expired(now);
            &&& current.expected matches Some(e) && reply_names(control, e.image_id)
            &&& current.retired matches Some(r) ==> !reply_names(control, r.image_id)
        }),
    ensures
        ({
            let reply = reply_of(control, message);
            let first = pushed(seq![], reply.take(cut), matcher, gate, seq![]);
            let second = pushed(first.held, reply.skip(cut), first.matcher, later_gate, seq![now]);
            &&& first.output.len() == 0
            &&& first.responses.len() == 0
            &&& second.output.len() == 0
            &&& second.held.len() == 0
            &&& second.responses == seq![
                Response {
                    transfer_id: matcher.expected->0.transfer_id,
                    image_id: matcher.expected->0.image_id,
                    success: message == seq![0x4fu8, 0x4bu8],
                },
            ]
        }),
{
    let reply = reply_of(control, message);
    let current = matcher.expired(gate).expired(later_gate).expired(now);
    assert(starts_command(reply, 0));
    assert(ends_command(reply, reply.len() - 2));
    assert forall|j: int| j < reply.len() - 2 implies !#[trigger] ends_command(reply, j) by {
        let n = control.len() as int;
        if 3 <= j < 3 + n {
            assert(reply[j] == control[j - 3]);
            assert(control.contains(control[j - 3]));
        } else if 4 + n <= j {
            assert(reply[j] == message[j - 4 - n]);
            assert(message.contains(message[j - 4 - n]));
        }
    }
    law_command_in_two_parts(matcher, reply, cut, gate, later_gate, now);
    law_reply_is_answered_by_image(current, control, message);
}

/// Readings of a clock that follow on from others are readings as well. Each
/// lies between what was shown before and what is shown at the end, and none
/// is later than the longest time span that the clock can show.
pub proof fn law_readings_go_on(
    from: nat,
    clock: Seq<nat>,
    between: nat,
    later: Seq<nat>,
    to: nat,
)
    requires
        are_readings(from, clock, between),
        are_readings(between, later, to),
    ensures
        from <= between <= to,
        forall|k: int|
            0 <= k < clock.len() ==> from <= #[trigger] clock[k] <= between && clock[k]
                <= 18_446_744_073_709_551_615_999_999_999,
        forall|j: int, k: int| 0 <= j <= k < clock.len() ==> clock[j] <= clock[k],
        clock.len() == 0 ==> between == from,
        clock.len() > 0 ==> between == clock[clock.len() - 1],
        are_readings(from, clock + later, to),
{
    if clock.len() > 0 {
        assert(clock[clock.len() - 1] == clock.last());
    }
    if later.len() > 0 {
        assert((clock + later).last() == later.last());
        assert(later[later.len() - 1] == later.last());
    } else {
        assert(clock + later =~= clock);
    }
    assert forall|k: int| 0 <= k < clock.len() implies from <= #[trigger] clock[k] <= between by {
        assert(clock[k] <= clock[clock.len() - 1]);
    }
}

/// The contents of a list of byte vectors are its vectors' bytes, one by one.
pub proof fn law_contents_are_kept(chunks: Seq<Vec<u8>>)
    ensures
        contents(chunks).len() == chunks.len(),
        forall|k: int| 0 <= k < chunks.len() ==> contents(chunks)[k] == #[trigger] chunks[k]@,
{
}

} // verus!
