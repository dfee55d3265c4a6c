use std::sync::atomic::Ordering;

use direct_graphics::bytes::{digits_only, find_byte, find_bytes, same_bytes, writes_number};
use direct_graphics::clock::LATEST_MOMENT;
use direct_graphics::controls::{matching_response_controls, valid_control};
use direct_graphics::filter::InputFilter;
use direct_graphics::matcher::{Response, ResponseMatcher};
use direct_graphics::matcher::{LATE_RESPONSE_DRAIN, MAX_RESPONSE_BYTES, RESPONSE_TIMEOUT};

const VALID: &str = "a=T,f=32,i=42,q=0,C=1";

fn response(transfer_id: u64, image_id: u32, success: bool) -> Option<Option<Response>> {
    Some(Some(Response {
        transfer_id,
        image_id,
        success,
    }))
}

fn armed(transfer_id: u64, image_id: u32) -> ResponseMatcher {
    let mut matcher = ResponseMatcher::default();
    assert!(matcher.arm_at(transfer_id, image_id, 0));
    matcher
}

#[test]
fn timeouts_are_three_seconds_and_one_second() {
    assert_eq!(
        RESPONSE_TIMEOUT,
        std::time::Duration::from_secs(3).as_nanos()
    );
    assert_eq!(
        LATE_RESPONSE_DRAIN,
        std::time::Duration::from_secs(1).as_nanos()
    );
    assert_eq!(LATEST_MOMENT, std::time::Duration::MAX.as_nanos());
    assert_eq!(MAX_RESPONSE_BYTES, 4096);
}

#[test]
fn clock_counts_from_the_creation_of_the_matcher() {
    let before = std::time::Instant::now();
    let mut matcher = ResponseMatcher::default();
    let created = std::time::Instant::now();
    let lower = created.elapsed().as_nanos();
    let first = matcher.now();
    let upper = before.elapsed().as_nanos();
    assert!(lower <= first && first <= upper);
    let mut later = matcher.now();
    while later == first {
        later = matcher.now();
    }
    assert!(later > first);
}

#[test]
fn bytes_are_found_at_their_first_position() {
    assert_eq!(find_byte(b"a=b=c", b'='), 1);
    assert_eq!(find_byte(b"abc", b'='), 3);
    assert_eq!(find_byte(b"", b'='), 0);
    assert_eq!(find_bytes(b"xabab", b"ab"), Some(1));
    assert_eq!(find_bytes(b"xaxb", b"ab"), None);
    assert_eq!(find_bytes(b"a", b"ab"), None);
    assert_eq!(find_bytes(b"", b""), Some(0));
    assert!(same_bytes(b"ab", b"ab"));
    assert!(!same_bytes(b"ab", b"ac"));
    assert!(!same_bytes(b"ab", b"abc"));
}

#[test]
fn numbers_are_decimal_digits_within_range() {
    assert!(digits_only(b""));
    assert!(digits_only(b"0129"));
    assert!(!digits_only(b"1/2"));
    assert!(!digits_only(b"1:2"));
    assert!(writes_number(b"42", 42));
    assert!(writes_number(b"0042", 42));
    assert!(writes_number(b"4294967295", u32::MAX));
    assert!(!writes_number(b"4294967338", 42));
    assert!(!writes_number(b"99999999999999999999999999", u32::MAX));
    assert!(!writes_number(b"", 0));
    assert!(!writes_number(b"+42", 42));
    assert!(!writes_number(b"-0", 0));
}

#[test]
fn reply_controls_name_the_image_exactly_once() {
    assert!(matching_response_controls(b"i=42", 42));
    assert!(matching_response_controls(b"I=7,i=42,p=3", 42));
    assert!(matching_response_controls(b"p=1,p=2,i=042", 42));
    for other in [
        b"".as_slice(),
        b"i",
        b"i=",
        b"i=41",
        b"i=42,i=42",
        b"i=42,i=41",
        b"I=42",
        b"p=42",
        b"i=42,",
        b",i=42",
        b"i=42,x=1",
        b"i=42,p=a",
        b"i=42=",
        b"ii=42",
        b"=42",
        b"i=4294967338",
        b"i=-42",
    ] {
        assert!(!matching_response_controls(other, 42));
    }
}

#[test]
fn reply_controls_name_one_image() {
    let named: Vec<u32> = (0..100)
        .filter(|image| matching_response_controls(b"I=9,i=57,p=58", *image))
        .collect();
    assert_eq!(named, [57]);
}

#[test]
fn shortest_control_is_valid_for_every_image() {
    for image in [0, 1, 9, 10, 42, 4_294_967_295] {
        assert!(valid_control(
            &format!("a=T,f=32,i={image},q=0,C=1"),
            image
        ));
        assert!(!valid_control(
            &format!("a=T,f=32,i={image},q=0,C=1"),
            image ^ 1
        ));
    }
}

#[test]
fn control_rejects_what_is_missing_or_unknown() {
    assert!(valid_control(VALID, 42));
    for invalid in [
        "",
        "a=T",
        "f=32,i=42,q=0,C=1",
        "a=T,i=42,q=0,C=1",
        "a=T,f=32,q=0,C=1",
        "a=T,f=32,i=42,C=1",
        "a=T,f=32,i=42,q=0",
        "a=T,f=32,i=42,q=1,C=1",
        "a=T,f=32,i=42,q=00,C=1",
        "a=T,f=32,i=42,q=0,C=0",
        "a=T,f=032,i=42,q=0,C=1",
        "a=t,f=32,i=42,q=0,C=1",
        "a=,f=32,i=42,q=0,C=1",
        "a=T,f=32,i=42,q=0,C=1,",
        "a=T,f=32,i=42,q=0,C=1,t=1",
        "a=T,f=32,i=42,q=0,C=1,m=1",
        "a=T,f=32,i=42,q=0,C=1,I=1",
        "a=T,f=32,i=42,q=0,C=1,x=",
        "a=T,f=32,i=42,q=0,C=1,x=a",
        "a=T,f=32,i=42,q=0,C=1,x=1-",
        "a=T,f=32,i=42,q=0,C=1,x=--1",
        "a=T,f=32,i=42,q=0,C=1,x=+1",
        "a=T,f=32,i=42,q=0,C=1,xy=1",
        "a=T,f=32,i=42,q=0,C=1,=1",
        "a=T,f=32,i=-42,q=0,C=1",
        "a=T,f=32,i=4294967338,q=0,C=1",
        "a=T,f=32,i=42,q=0,C=1;x=1",
        "a=\x1b,a=T,f=32,i=42,q=0,C=1",
        "a=;,a=T,f=32,i=42,q=0,C=1",
        "a=T,f=32,i=42,q=0,C=1,\u{e9}=1",
        "a=T,f=32,i=42,q=0,C=1,x=\u{661}",
    ] {
        assert!(!valid_control(invalid, 42), "{invalid}");
    }
}

#[test]
fn control_accepts_every_known_key_and_signed_numbers() {
    assert!(valid_control(
        "a=T,f=32,i=42,q=0,C=1,s=1,v=2,p=3,c=4,r=5,z=-6,x=7,y=8,w=9,h=10,X=11,Y=12",
        42
    ));
    assert!(valid_control("a=T,f=32,i=0042,q=0,C=1", 42));
    assert!(valid_control("a=T,f=32,i=42,q=0,C=1,z=-", 42));
}

#[test]
fn last_setting_counts() {
    assert!(valid_control("a=p,f=24,i=1,q=2,C=0,a=T,f=32,i=42,q=0,C=1", 42));
    assert!(valid_control("a=\u{e9},a=T,f=32,i=42,q=0,C=1", 42));
    assert!(!valid_control("a=T,f=32,i=42,q=0,C=1,a=p", 42));
    assert!(!valid_control("a=T,f=32,i=42,q=0,C=1,f=24", 42));
    assert!(!valid_control("a=T,f=32,i=42,q=0,C=1,i=41", 42));
    assert!(!valid_control("a=T,f=32,i=42,q=0,C=1,q=1", 42));
    assert!(!valid_control("a=T,f=32,i=42,q=0,C=1,C=0", 42));
}

#[test]
fn control_length_is_limited_in_bytes() {
    let mut longest = String::from("a=T,f=32,q=0,C=1,i=42,x=");
    while longest.len() < 1024 {
        longest.push('1');
    }
    assert!(valid_control(&longest, 42));
    longest.push('1');
    assert!(!valid_control(&longest, 42));
    let mut wide = String::from("a=");
    while wide.len() < 1010 {
        wide.push('\u{e9}');
    }
    wide.push_str(",a=T,f=32,q=0,C=1,i=42");
    assert!(wide.len() > 1024 && wide.chars().count() < 1024);
    assert!(!valid_control(&wide, 42));
}

#[test]
fn unstarted_transfer_never_expires() {
    let mut matcher = armed(1, 10);
    matcher.expire_at(LATEST_MOMENT);
    assert!(!matcher.arm_at(2, 11, LATEST_MOMENT));
    assert_eq!(
        matcher.consume_at(b"\x1b_Gi=10;OK\x1b\\", LATEST_MOMENT),
        response(1, 10, true)
    );
}

#[test]
fn moments_without_a_deadline_may_be_as_late_as_they_come() {
    let mut matcher = armed(1, 10);
    matcher.start_at(2, u128::MAX);
    matcher.retire_at(2, u128::MAX);
    matcher.expire_at(u128::MAX);
    assert!(matcher.interested_at(u128::MAX));
    assert_eq!(
        matcher.consume_at(b"\x1b_Gi=10;OK\x1b\\", u128::MAX),
        response(1, 10, true)
    );
}

#[test]
fn clock_never_goes_back() {
    let mut matcher = ResponseMatcher::default();
    let mut shown = 0;
    for _ in 0..1000 {
        let now = matcher.now();
        assert!(shown <= now);
        shown = now;
    }
}

#[test]
fn started_transfer_expires_at_its_deadline() {
    let mut matcher = armed(1, 10);
    matcher.start_at(2, 5);
    matcher.expire_at(u128::MAX - LATE_RESPONSE_DRAIN);
    assert!(!matcher.arm_at(2, 11, 5));
    matcher.start_at(1, 5);
    matcher.expire_at(5 + RESPONSE_TIMEOUT - 1);
    assert!(!matcher.arm_at(2, 11, 5));
    matcher.expire_at(5 + RESPONSE_TIMEOUT);
    assert!(matcher.arm_at(2, 11, 5 + RESPONSE_TIMEOUT));
}

#[test]
fn expiry_settles() {
    let mut matcher = armed(1, 10);
    matcher.start_at(1, 0);
    let late = RESPONSE_TIMEOUT;
    matcher.expire_at(late);
    matcher.expire_at(late);
    assert!(matcher.interested_at(late + LATE_RESPONSE_DRAIN - 1));
    assert!(!matcher.interested_at(late + LATE_RESPONSE_DRAIN));
}

#[test]
fn retired_image_is_forgotten_after_the_drain() {
    let mut matcher = armed(1, 10);
    matcher.retire_at(1, 100);
    assert!(matcher.interested_at(100 + LATE_RESPONSE_DRAIN - 1));
    assert_eq!(
        matcher.consume_at(b"\x1b_Gi=10;OK\x1b\\", 100 + LATE_RESPONSE_DRAIN),
        None
    );
    assert!(!matcher.interested_at(100 + LATE_RESPONSE_DRAIN));
}

#[test]
fn late_reply_is_dropped_once() {
    let mut matcher = armed(1, 10);
    matcher.retire_at(1, 0);
    assert_eq!(
        matcher.consume_at(b"\x1b_Gi=10;OK\x1b\\", 1),
        Some(None)
    );
    assert_eq!(matcher.consume_at(b"\x1b_Gi=10;OK\x1b\\", 1), None);
}

#[test]
fn late_reply_about_the_same_image_is_dropped_before_the_expected_one() {
    let mut matcher = armed(1, 10);
    matcher.retire_at(1, 0);
    assert!(matcher.arm_at(2, 10, 1));
    assert_eq!(
        matcher.consume_at(b"\x1b_Gi=10;EIO\x1b\\", 1),
        Some(None)
    );
    assert_eq!(
        matcher.consume_at(b"\x1b_Gi=10;OK\x1b\\", 1),
        response(2, 10, true)
    );
}

#[test]
fn response_is_reported_once() {
    let mut matcher = armed(1, 10);
    assert_eq!(
        matcher.consume_at(b"\x1b_Gi=10;OK\x1b\\", 0),
        response(1, 10, true)
    );
    assert_eq!(matcher.consume_at(b"\x1b_Gi=10;OK\x1b\\", 0), None);
    assert!(matcher.arm_at(2, 11, 0));
}

#[test]
fn cancel_and_retire_concern_only_the_expected_transfer() {
    let mut matcher = armed(1, 10);
    matcher.cancel(2);
    matcher.retire(2);
    assert!(!matcher.arm(3, 12));
    matcher.cancel(1);
    assert!(!matcher.interested());
    assert!(matcher.arm(3, 12));
}

#[test]
fn live_methods_read_the_clock() {
    let mut matcher = ResponseMatcher::default();
    assert!(!matcher.interested());
    assert!(matcher.arm(1, 10));
    matcher.start(1);
    matcher.expire();
    assert!(matcher.interested());
    let deadline = matcher.now() + RESPONSE_TIMEOUT;
    matcher.expire_at(deadline);
    assert!(matcher.arm(2, 11));
    matcher.retire(2);
    assert!(matcher.interested());
    assert_eq!(matcher.consume(b"\x1b_Gi=11;OK\x1b\\"), Some(None));
    assert!(!matcher.interested());
}

#[test]
fn handle_follows_every_change() {
    let mut matcher = ResponseMatcher::default();
    let active = matcher.active_handle();
    assert!(!active.load(Ordering::Acquire));
    matcher.arm_at(1, 10, 0);
    assert!(active.load(Ordering::Acquire));
    matcher.cancel(1);
    assert!(!active.load(Ordering::Acquire));
    matcher.arm_at(2, 11, 0);
    matcher.retire_at(2, 0);
    assert!(active.load(Ordering::Acquire));
    matcher.expire_at(LATE_RESPONSE_DRAIN);
    assert!(!active.load(Ordering::Acquire));
    matcher.arm_at(3, 12, 0);
    assert_eq!(
        matcher.consume_at(b"\x1b_Gi=12;OK\x1b\\", 0),
        response(3, 12, true)
    );
    assert!(!active.load(Ordering::Acquire));
    active.store(true, Ordering::Release);
    matcher.refresh_active();
    assert!(!active.load(Ordering::Acquire));
}

#[test]
fn reply_message_is_everything_behind_the_first_semicolon() {
    for (reply, success) in [
        (b"\x1b_Gi=10;OK\x1b\\".as_slice(), true),
        (b"\x1b_Gi=10;\x1b\\", false),
        (b"\x1b_Gi=10;ok\x1b\\", false),
        (b"\x1b_Gi=10;OK;\x1b\\", false),
        (b"\x1b_Gi=10;OK \x1b\\", false),
    ] {
        assert_eq!(
            armed(1, 10).consume_at(reply, 0),
            response(1, 10, success)
        );
    }
}

#[test]
fn malformed_frames_are_not_replies() {
    for other in [
        b"".as_slice(),
        b"\x1b_G",
        b"\x1b_G\\",
        b"\x1b_G\x1b\\",
        b"\x1b_Gi=10\x1b\\",
        b"x\x1b_Gi=10;OK\x1b\\",
        b"\x1b_Gi=10;OK\x1b\\x",
        b"\x1b_gi=10;OK\x1b\\",
        b"\x1b]Gi=10;OK\x1b\\",
        b"\x1b_G;OK\x1b\\",
    ] {
        assert_eq!(armed(1, 10).consume_at(other, 0), None);
    }
}

#[test]
fn reply_length_is_limited() {
    let mut reply = b"\x1b_Gi=10;".to_vec();
    reply.resize(MAX_RESPONSE_BYTES - 2, b'x');
    reply.extend_from_slice(b"\x1b\\");
    assert_eq!(reply.len(), 4096);
    assert_eq!(armed(1, 10).consume_at(&reply, 0), response(1, 10, false));
    reply.insert(8, b'x');
    assert_eq!(armed(1, 10).consume_at(&reply, 0), None);
}

#[test]
fn idle_filter_forwards_everything_at_once() {
    let mut matcher = ResponseMatcher::default();
    let mut filter = InputFilter::default();
    let (output, responses) = filter.push(b"ab\x1b_Gi=10;OK\x1b", &mut matcher);
    assert_eq!(output, [b"ab\x1b_Gi=10;OK\x1b".to_vec()]);
    assert!(responses.is_empty());
    assert!(!filter.has_pending());
    let (output, _) = filter.push(b"", &mut matcher);
    assert_eq!(output, [Vec::<u8>::new()]);
}

#[test]
fn reply_is_lifted_out_of_typed_text() {
    let mut matcher = armed(1, 10);
    let mut filter = InputFilter::default();
    let (output, responses) =
        filter.push_at(b"before\x1b_Gi=10,p=2;OK\x1b\\after", &mut matcher, 0);
    assert_eq!(output, [b"before".to_vec(), b"after".to_vec()]);
    assert_eq!(
        responses,
        [Response {
            transfer_id: 1,
            image_id: 10,
            success: true
        }]
    );
    assert!(!filter.has_pending());
}

#[test]
fn late_reply_is_left_out_of_typed_text() {
    let mut matcher = armed(1, 10);
    matcher.retire_at(1, 0);
    let mut filter = InputFilter::default();
    let (output, responses) = filter.push_at(b"x\x1b_Gi=10;OK\x1b\\y", &mut matcher, 1);
    assert_eq!(output, [b"x".to_vec(), b"y".to_vec()]);
    assert!(responses.is_empty());
}

#[test]
fn foreign_commands_are_forwarded_in_order() {
    let mut matcher = armed(1, 10);
    let mut filter = InputFilter::default();
    let (output, responses) = filter.push_at(
        b"a\x1b_Gi=9;OK\x1b\\b\x1b_Gi=10;EIO\x1b\\\x1b_Gi=10;OK\x1b\\",
        &mut matcher,
        0,
    );
    assert_eq!(
        output,
        [
            b"a".to_vec(),
            b"\x1b_Gi=9;OK\x1b\\".to_vec(),
            b"b".to_vec(),
            b"\x1b_Gi=10;OK\x1b\\".to_vec()
        ]
    );
    assert_eq!(responses.len(), 1);
    assert!(!responses[0].success);
}

#[test]
fn fragments_do_not_matter() {
    let input = b"ab\x1b[A\x1b_Gi=9;OK\x1b\\\x1b\x1b_Gi=10;OK\x1b\\cd\x1b_x\x1b_Gq";
    let whole = {
        let mut matcher = armed(1, 10);
        let mut filter = InputFilter::default();
        let (output, responses) = filter.push_at(input, &mut matcher, 0);
        (output.concat(), responses)
    };
    assert_eq!(whole.1.len(), 1);
    for first in 0..input.len() {
        for second in first..input.len() {
            let mut matcher = armed(1, 10);
            let mut filter = InputFilter::default();
            let mut forwarded = Vec::new();
            let mut responses = Vec::new();
            for part in [
                &input[..first],
                &input[first..second],
                &input[second..],
            ] {
                let (output, found) = filter.push_at(part, &mut matcher, 0);
                forwarded.extend(output.concat());
                responses.extend(found);
            }
            if let Some(held) = filter.flush_if_inactive_at(&mut matcher, 0) {
                forwarded.extend(held);
            }
            let mut expected = whole.0.clone();
            if !expected.ends_with(b"\x1b_Gq") {
                expected.extend_from_slice(b"\x1b_Gq");
            }
            assert_eq!(forwarded, expected);
            assert_eq!(responses, whole.1);
        }
    }
}

#[test]
fn beginnings_of_commands_are_held_back() {
    for (input, forwarded) in [
        (b"ab\x1b".as_slice(), b"ab".as_slice()),
        (b"ab\x1b_", b"ab"),
        (b"ab\x1b_G", b"ab"),
        (b"ab\x1b_Gi=10;OK\x1b", b"ab"),
        (b"ab\x1b_x", b"ab\x1b_x"),
        (b"ab\x1b\x1b", b"ab\x1b"),
        (b"ab_G", b"ab_G"),
    ] {
        let mut matcher = armed(1, 10);
        let mut filter = InputFilter::default();
        let (output, responses) = filter.push_at(input, &mut matcher, 0);
        assert_eq!(output.concat(), forwarded);
        assert!(responses.is_empty());
        assert_eq!(filter.has_pending(), forwarded.len() < input.len());
    }
}

#[test]
fn unfinished_command_is_forwarded_when_it_grows_too_long() {
    let mut matcher = armed(1, 10);
    let mut filter = InputFilter::default();
    let mut unfinished = b"\x1b_G".to_vec();
    unfinished.resize(MAX_RESPONSE_BYTES, b'x');
    let (output, _) = filter.push_at(&unfinished, &mut matcher, 0);
    assert!(output.is_empty());
    assert!(filter.has_pending());
    let (output, responses) = filter.push_at(b"y", &mut matcher, 0);
    unfinished.push(b'y');
    assert_eq!(output, [unfinished]);
    assert!(responses.is_empty());
    assert!(!filter.has_pending());
    let (output, responses) = filter.push_at(b"\x1b_Gi=10;OK\x1b\\", &mut matcher, 0);
    assert!(output.is_empty());
    assert_eq!(responses.len(), 1);
}

#[test]
fn long_command_that_has_ended_is_forwarded_whole() {
    let mut matcher = armed(1, 10);
    let mut filter = InputFilter::default();
    let mut command = b"\x1b_Gi=10;".to_vec();
    command.resize(5000, b'x');
    command.extend_from_slice(b"\x1b\\");
    let (output, responses) = filter.push_at(&command, &mut matcher, 0);
    assert_eq!(output, [command]);
    assert!(responses.is_empty());
}

#[test]
fn held_input_is_flushed_once_nothing_is_awaited() {
    let mut matcher = armed(1, 10);
    let mut filter = InputFilter::default();
    assert_eq!(filter.flush_if_inactive(&mut matcher), None);
    let (output, _) = filter.push(b"\x1b_Gi=1", &mut matcher);
    assert!(output.is_empty());
    assert_eq!(filter.flush_if_inactive(&mut matcher), None);
    assert!(filter.has_pending());
    matcher.cancel(1);
    assert_eq!(
        filter.flush_if_inactive(&mut matcher),
        Some(b"\x1b_Gi=1".to_vec())
    );
    assert!(!filter.has_pending());
    assert_eq!(filter.flush_if_inactive(&mut matcher), None);
}

#[test]
fn held_input_is_flushed_when_the_wait_runs_out() {
    let mut matcher = armed(1, 10);
    matcher.retire_at(1, 0);
    let mut filter = InputFilter::default();
    filter.push_at(b"\x1b", &mut matcher, 1);
    assert_eq!(
        filter.flush_if_inactive_at(&mut matcher, LATE_RESPONSE_DRAIN - 1),
        None
    );
    assert_eq!(
        filter.flush_if_inactive_at(&mut matcher, LATE_RESPONSE_DRAIN),
        Some(b"\x1b".to_vec())
    );
}
