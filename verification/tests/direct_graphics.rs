use direct_graphics::controls::valid_control;
use direct_graphics::filter::InputFilter;
use direct_graphics::matcher::{Response, ResponseMatcher, RESPONSE_TIMEOUT};

#[test]
fn matches_only_the_armed_image_and_preserves_unrelated_input() {
    let mut matcher = ResponseMatcher::default();
    let active = matcher.active_handle();
    assert!(matcher.arm(7, 42));
    assert!(active.load(std::sync::atomic::Ordering::Acquire));
    assert!(!matcher.arm(8, 43));
    assert_eq!(matcher.consume(b"typed"), None);
    assert_eq!(matcher.consume(b"\x1b_Gi=41;OK\x1b\\"), None);
    assert_eq!(
        matcher.consume(b"\x1b_Gi=42;OK\x1b\\"),
        Some(Some(Response {
            transfer_id: 7,
            image_id: 42,
            success: true,
        }))
    );
    assert!(!active.load(std::sync::atomic::Ordering::Acquire));
}

#[test]
fn explicit_error_is_reported_and_malformed_responses_are_ignored() {
    let mut matcher = ResponseMatcher::default();
    matcher.arm(9, 44);
    assert_eq!(
        matcher.consume(b"\x1b_Gi=44;ENOENT\x1b\\"),
        Some(Some(Response {
            transfer_id: 9,
            image_id: 44,
            success: false,
        }))
    );
    matcher.arm(10, 45);
    assert_eq!(matcher.consume(b"\x1b_Gi=45;broken"), None);
    matcher.cancel(10);
    matcher.arm(11, 46);
    assert_eq!(matcher.consume(b"\x1b_Gi=46oops;OK\x1b\\"), None);
}

#[test]
fn validated_control_is_one_owned_rgba_transmit_and_display() {
    assert!(valid_control(
        "a=T,f=32,s=10,v=20,i=42,p=7,c=5,r=6,z=-1,C=1,q=0,x=2",
        42
    ));
    for invalid in [
        "a=T,f=24,i=42,C=1,q=0",
        "a=T,f=32,i=41,C=1,q=0",
        "a=T,t=f,f=32,i=42,C=1,q=0",
        "a=p,f=32,i=42,C=1,q=0",
    ] {
        assert!(!valid_control(invalid, 42), "{invalid}");
    }
}

#[test]
fn fragmented_response_is_held_before_generic_input_timeout() {
    let mut matcher = ResponseMatcher::default();
    let mut filter = InputFilter::default();
    matcher.arm(19, 49);
    for foreign in [
        b"\x1b_Ga=p,i=49;OK\x1b\\".as_slice(),
        b"\x1b_Gi=49oops;OK\x1b\\",
    ] {
        let (output, responses) = filter.push(foreign, &mut matcher);
        assert_eq!(output, [foreign.to_vec()]);
        assert!(responses.is_empty());
    }
    let (output, responses) = filter.push(b"typed\x1b_Gi=49;", &mut matcher);
    assert_eq!(output, [b"typed".to_vec()]);
    assert!(responses.is_empty());
    let (output, responses) = filter.push(b"OK\x1b\\tail", &mut matcher);
    assert_eq!(output, [b"tail".to_vec()]);
    assert_eq!(responses[0].transfer_id, 19);
    assert!(responses[0].success);
}

#[test]
fn attempted_output_failure_retires_response_without_forwarding_it() {
    let mut matcher = ResponseMatcher::default();
    let mut filter = InputFilter::default();
    matcher.arm(20, 50);
    matcher.retire(20);
    for foreign in [
        b"\x1b_Ga=p,i=50;OK\x1b\\".as_slice(),
        b"\x1b_Gi=50oops;OK\x1b\\",
    ] {
        let (output, responses) = filter.push(foreign, &mut matcher);
        assert_eq!(output, [foreign.to_vec()]);
        assert!(responses.is_empty());
    }
    assert!(filter
        .push(b"\x1b_Gi=50;EINVAL\x1b\\", &mut matcher)
        .0
        .is_empty());
}

#[test]
fn timed_out_expectation_requires_a_new_transfer_before_matching() {
    let mut matcher = ResponseMatcher::default();
    let started = matcher.now();
    assert!(matcher.arm(12, 47));
    matcher.start_at(12, started);
    assert!(!matcher.arm(13, 48));
    matcher.expire_at(started + RESPONSE_TIMEOUT);
    assert!(matcher.arm(13, 48));
    assert_eq!(matcher.consume(b"typed"), None);
    assert_eq!(matcher.consume(b"\x1b_Gi=47;OK\x1b\\"), Some(None));
    assert_eq!(
        matcher.consume(b"\x1b_Gi=48;OK\x1b\\"),
        Some(Some(Response {
            transfer_id: 13,
            image_id: 48,
            success: true,
        }))
    );
}
