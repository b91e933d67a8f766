use sim3dview::frame_request::FrameRequest;

#[test]
fn input_and_fade_requests_share_one_callback_per_frame() {
    let mut request = FrameRequest::default();
    let mut queued = 0;
    let mut rendered = 0;
    let mut latest = 0;
    for frame in 0..60 {
        for event in 1..=10 {
            latest = frame * 10 + event;
            queued += usize::from(request.request());
        }
        assert_eq!(queued, 1);
        queued -= 1;
        request.clear();
        rendered += 1;
        assert_eq!(latest, (frame + 1) * 10);
        if frame < 59 {
            queued += usize::from(request.request());
        }
    }
    assert_eq!(rendered, 60);
    assert_eq!(queued, 0);
}

#[test]
fn failed_reservation_does_not_block_later_updates() {
    let mut request = FrameRequest::default();
    assert!(request.request());
    request.clear();
    assert!(request.request());
    assert!(!request.request());
}

#[test]
fn a_new_mark_is_clear() {
    let mut request = FrameRequest::new();
    assert!(request.request());
}
