use http_server::{MAX_REQUEST_BYTES, Next, ReadState, next_step_of, read_state_of, too_large};

#[test]
fn head_without_blank_line_needs_more() {
    assert_eq!(read_state_of(b"GET / HTTP/1.1\r\nHost: a\r\n"), ReadState::NeedMore);
    assert_eq!(read_state_of(b""), ReadState::NeedMore);
}

#[test]
fn head_without_length_is_complete_at_blank_line() {
    let raw = b"GET / HTTP/1.1\r\nHost: a\r\n\r\nextra";
    assert_eq!(read_state_of(raw), ReadState::Complete(27));
}

#[test]
fn body_is_awaited_until_content_length() {
    let partial = b"POST /f HTTP/1.1\r\nContent-Length: 5\r\n\r\nhel";
    assert_eq!(read_state_of(partial), ReadState::NeedMore);
    let whole = b"POST /f HTTP/1.1\r\nContent-Length: 5\r\n\r\nhello";
    assert_eq!(read_state_of(whole), ReadState::Complete(whole.len()));
    let more = b"POST /f HTTP/1.1\r\nContent-Length: 5\r\n\r\nhello, world";
    assert_eq!(read_state_of(more), ReadState::Complete(whole.len()));
}

#[test]
fn content_length_name_ignores_case() {
    let partial = b"POST /f HTTP/1.1\r\ncontent-length: 5\r\n\r\nhel";
    assert_eq!(read_state_of(partial), ReadState::NeedMore);
    let whole = b"POST /f HTTP/1.1\r\nCONTENT-LENGTH: 5\r\n\r\nhello";
    assert_eq!(read_state_of(whole), ReadState::Complete(whole.len()));
}

#[test]
fn bad_content_length_is_reported() {
    assert_eq!(
        read_state_of(b"POST /f HTTP/1.1\r\nContent-Length: five\r\n\r\n"),
        ReadState::BadLength
    );
    assert_eq!(
        read_state_of(b"POST /f HTTP/1.1\r\nContent-Length: \r\n\r\n"),
        ReadState::BadLength
    );
}

#[test]
fn oversized_requests_are_too_large() {
    let huge = b"POST /f HTTP/1.1\r\nContent-Length: 99999999999999999999999\r\n\r\n";
    assert_eq!(read_state_of(huge), ReadState::TooLarge);
    let at_limit = format!("POST /f HTTP/1.1\r\nContent-Length: {}\r\n\r\n", MAX_REQUEST_BYTES);
    assert_eq!(read_state_of(at_limit.as_bytes()), ReadState::TooLarge);
    let endless = vec![b'a'; MAX_REQUEST_BYTES + 1];
    assert_eq!(read_state_of(&endless), ReadState::TooLarge);
}

#[test]
fn next_step_decisions() {
    assert_eq!(next_step_of(b"", true), Next::Close);
    assert_eq!(next_step_of(b"", false), Next::ReadMore);
    assert_eq!(next_step_of(b"GET / HTTP/1.1\r\n", false), Next::ReadMore);
    assert_eq!(next_step_of(b"GET / HTTP/1.1\r\n", true), Next::Malformed);
    assert_eq!(next_step_of(b"GET / HTTP/1.1", true), Next::Malformed);
    assert_eq!(
        next_step_of(b"POST / HTTP/1.1\r\nContent-Length: 5\r\n\r\nab", true),
        Next::Malformed
    );
    assert_eq!(next_step_of(b"GET / HTTP/1.1\r\n\r\n", false), Next::Answer(18));
    assert_eq!(
        next_step_of(b"POST / HTTP/1.1\r\nContent-Length: x\r\n\r\n", false),
        Next::Malformed
    );
    let endless = vec![b'a'; MAX_REQUEST_BYTES + 1];
    assert_eq!(next_step_of(&endless, false), Next::TooLarge);
}

#[test]
fn too_large_page() {
    let r = too_large();
    assert_eq!(r.status, "413 PAYLOAD TOO LARGE");
    assert!(r.as_bytes().starts_with(b"HTTP/1.1 413 PAYLOAD TOO LARGE\r\n"));
}
