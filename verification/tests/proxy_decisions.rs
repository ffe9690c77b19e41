use emblem_swapper::proxy::{
    chunked_step, find_header_value, plan_reply, ReplyPlan, has_conditional_headers, normalize_headers_for_body, parse_userhash_slot,
    length_body_step, response_framing, route_request, split_head, target_action, ChunkStep, Framing, HeadStep, Route,
    TargetAction,
};
use emblem_swapper::state::Mode;

#[test]
fn header_values_are_found_case_insensitively_and_trimmed() {
    let head = b"HTTP/1.1 200 OK\r\nContent-Type: text/plain\r\nCONTENT-LENGTH:   42  \r\n\r\n";
    assert_eq!(find_header_value(head, b"content-length"), Some(&b"42"[..]));
    assert_eq!(find_header_value(head, b"content-type"), Some(&b"text/plain"[..]));
    assert_eq!(find_header_value(head, b"range"), None);
}

#[test]
fn the_first_matching_header_wins() {
    let head = b"GET / HTTP/1.1\nX-A: one\nx-a: two\n\n";
    assert_eq!(find_header_value(head, b"x-a"), Some(&b"one"[..]));
}

#[test]
fn userhash_and_slot_are_read_from_the_path() {
    assert_eq!(
        parse_userhash_slot("/content/u0123abcd.slot_2?x=1"),
        Some(("u0123abcd".to_string(), 2))
    );
    assert_eq!(parse_userhash_slot("/a/uzz.slot_1/u1f.slot_3"), Some(("u1f".to_string(), 3)));
    assert_eq!(parse_userhash_slot("/u12.slot_"), None);
    assert_eq!(parse_userhash_slot("/u.slot_1"), None);
    assert_eq!(parse_userhash_slot("/u12.slot_4294967296"), None);
    assert_eq!(parse_userhash_slot("no marker here"), None);
}

#[test]
fn chunked_framing_wins_over_a_length() {
    let h = b"HTTP/1.1 200 OK\r\nContent-Length: 10\r\nTransfer-Encoding: gzip, Chunked\r\n\r\n";
    assert_eq!(response_framing(h), Framing::Chunked);
    let h = b"HTTP/1.1 200 OK\r\nContent-Length: +10 \r\n\r\n";
    assert_eq!(response_framing(h), Framing::Length(10));
    let h = b"HTTP/1.1 200 OK\r\nContent-Length: ten\r\n\r\n";
    assert_eq!(response_framing(h), Framing::UntilClose);
    let h = b"HTTP/1.1 200 OK\r\n\r\n";
    assert_eq!(response_framing(h), Framing::UntilClose);
}

#[test]
fn normalized_head_drops_transfer_encoding_and_sets_the_length() {
    let h = b"HTTP/1.1 200 OK\r\nTransfer-Encoding: chunked\r\nContent-Length: 3\r\nX: y\r\n\r\n";
    assert_eq!(
        normalize_headers_for_body(h, 1408),
        b"HTTP/1.1 200 OK\r\nContent-Length: 1408\r\nX: y\r\n\r\n".to_vec()
    );
    let h = b"HTTP/1.1 200 OK\r\nTransfer-Encoding: chunked\r\n\r\n";
    assert_eq!(
        normalize_headers_for_body(h, 0),
        b"HTTP/1.1 200 OK\r\nContent-Length: 0\r\n\r\n".to_vec()
    );
}

fn decode(raw: &[u8]) -> Vec<u8> {
    let mut rest = raw.to_vec();
    let mut out = Vec::new();
    loop {
        match chunked_step(&rest, true) {
            ChunkStep::Data { start, end, next } => {
                out.extend_from_slice(&rest[start..end]);
                match next {
                    Some(n) => rest = rest[n..].to_vec(),
                    None => break,
                }
            }
            ChunkStep::Done => break,
            ChunkStep::NeedMore => panic!("complete input needs no more"),
            ChunkStep::SizeOverflow => panic!("overflow"),
        }
    }
    out
}

#[test]
fn chunked_bodies_decode_step_by_step() {
    let raw = b"4\r\nWiki\r\n5;ext=1\r\npedia\r\n0\r\n\r\n";
    assert_eq!(decode(raw), b"Wikipedia".to_vec());
    assert_eq!(
        chunked_step(raw, false),
        ChunkStep::Data { start: 3, end: 7, next: Some(9) }
    );
}

#[test]
fn chunked_steps_wait_for_missing_bytes() {
    assert_eq!(chunked_step(b"4\r\nWi", false), ChunkStep::NeedMore);
    assert_eq!(chunked_step(b"4\r\nWi", true), ChunkStep::Data { start: 3, end: 5, next: None });
    assert_eq!(chunked_step(b"4", false), ChunkStep::NeedMore);
    assert_eq!(chunked_step(b"4", true), ChunkStep::Done);
    assert_eq!(chunked_step(b"0\r\nX-T: 1\r\n", false), ChunkStep::NeedMore);
    assert_eq!(chunked_step(b"0\r\nX-T: 1\r\n\r\n", false), ChunkStep::Done);
    assert_eq!(chunked_step(b"zz\r\nabc", false), ChunkStep::NeedMore);
    assert_eq!(chunked_step(b"zz\r\nabc", true), ChunkStep::Done);
}

#[test]
fn a_huge_chunk_size_is_reported() {
    assert_eq!(chunked_step(b"ffffffffffffffff\r\n", false), ChunkStep::SizeOverflow);
}

#[test]
fn connect_requests_open_a_tunnel() {
    match route_request(b"CONNECT example.com:8443 HTTP/1.1\r\nHost: x\r\n\r\n") {
        Route::Tunnel { host, port } => {
            assert_eq!(host, "example.com");
            assert_eq!(port, 8443);
        }
        _ => panic!("expected a tunnel"),
    }
    match route_request(b"connect example.com HTTP/1.1\r\n\r\n") {
        Route::Tunnel { host, port } => {
            assert_eq!(host, "example.com");
            assert_eq!(port, 443);
        }
        _ => panic!("expected a tunnel"),
    }
}

#[test]
fn emblem_requests_go_on_in_origin_form_and_others_unchanged() {
    let req = b"GET http://ops2-ps3-cs.prod.demonware.net:8080/u1.slot_1 HTTP/1.1\r\nHost: h\r\n\r\nbody";
    match route_request(req) {
        Route::Forward { host, port, path, request, target } => {
            assert_eq!(host, "ops2-ps3-cs.prod.demonware.net");
            assert_eq!(port, 8080);
            assert_eq!(path, "/u1.slot_1");
            assert_eq!(request, b"GET /u1.slot_1 HTTP/1.1\r\nHost: h\r\n\r\nbody".to_vec());
            assert!(target);
        }
        _ => panic!("expected a forward"),
    }
    match route_request(b"get example.org HTTP/1.0\r\n\r\n") {
        Route::Forward { host, port, path, request, target } => {
            assert_eq!(host, "example.org");
            assert_eq!(port, 80);
            assert_eq!(path, "/");
            assert_eq!(request, b"get example.org HTTP/1.0\r\n\r\n".to_vec());
            assert!(!target);
        }
        _ => panic!("expected a forward"),
    }
}

#[test]
fn a_request_line_with_one_word_is_ignored() {
    assert!(matches!(route_request(b"GET\r\n\r\n"), Route::Ignore));
    assert!(matches!(route_request(b"   \r\n\r\n"), Route::Ignore));
}

#[test]
fn cache_checks_are_recognized() {
    assert!(has_conditional_headers(b"GET / HTTP/1.1\r\nIf-None-Match: \"x\"\r\n\r\n"));
    assert!(has_conditional_headers(b"GET / HTTP/1.1\r\nrange: bytes=0-1\r\n\r\n"));
    assert!(!has_conditional_headers(b"GET / HTTP/1.1\r\nHost: h\r\n\r\n"));
}

#[test]
fn emblem_requests_follow_the_mode() {
    assert!(matches!(target_action(Mode::Inject, "/u1.slot_3"), TargetAction::ServeSelected { slot: 3 }));
    match target_action(Mode::Capture, "/x/uab12.slot_3") {
        TargetAction::Capture { userhash, slot } => {
            assert_eq!(userhash, "uab12");
            assert_eq!(slot, 3);
        }
        _ => panic!("expected a capture"),
    }
    assert!(matches!(target_action(Mode::Passthrough, "/u1.slot_3"), TargetAction::PassThrough));
    assert!(matches!(target_action(Mode::Inject, "/favicon.ico"), TargetAction::PassThrough));
}

#[test]
fn a_length_that_is_not_utf8_frames_until_close() {
    let h = b"HTTP/1.1 200 OK\r\nContent-Length: 1\xff\r\n\r\n";
    assert_eq!(response_framing(h), Framing::UntilClose);
    let h = b"HTTP/1.1 200 OK\r\nTransfer-Encoding: chunked\xff\r\n\r\n";
    assert_eq!(response_framing(h), Framing::Chunked);
}

#[test]
fn a_normalized_head_frames_its_body_by_length() {
    let h = b"HTTP/1.1 200 OK\r\nTransfer-Encoding: chunked\r\ncontent-length: 5\r\nX-A: b\r\n\r\n";
    let normalized = normalize_headers_for_body(h, 1408);
    assert_eq!(response_framing(&normalized), Framing::Length(1408));
    let h = b"HTTP/1.1 200 OK\r\nTransfer-Encoding: chunked\r\n\r\n";
    assert_eq!(response_framing(&normalize_headers_for_body(h, 9)), Framing::Length(9));
}

#[test]
fn a_complete_chunked_body_decodes_without_waiting() {
    let first = b"abcdefghijklmnopqrstuvwxyz";
    let mut raw = b"1a\r\n".to_vec();
    raw.extend_from_slice(first);
    raw.extend_from_slice(b"\r\n3\r\nxyz\r\n0\r\n\r\n");
    let mut rest = raw.clone();
    let mut out = Vec::new();
    loop {
        match chunked_step(&rest, false) {
            ChunkStep::Data { start, end, next: Some(n) } => {
                out.extend_from_slice(&rest[start..end]);
                rest = rest[n..].to_vec();
            }
            ChunkStep::Done => break,
            other => panic!("unexpected step {:?}", other),
        }
    }
    let mut expected = first.to_vec();
    expected.extend_from_slice(b"xyz");
    assert_eq!(out, expected);
}

#[test]
fn only_fetches_and_captures_read_and_reframe_the_reply() {
    assert!(matches!(plan_reply(&TargetAction::PassThrough, true), ReplyPlan::Relay));
    assert!(matches!(plan_reply(&TargetAction::ServeSelected { slot: 1 }, true), ReplyPlan::SendSelected));
    assert!(matches!(plan_reply(&TargetAction::ServeSelected { slot: 1 }, false), ReplyPlan::Fetch));
    let capture = TargetAction::Capture { userhash: "uab".to_string(), slot: 4 };
    match plan_reply(&capture, false) {
        ReplyPlan::Capture { userhash, slot } => {
            assert_eq!(userhash, "uab");
            assert_eq!(slot, 4);
        }
        _ => panic!("expected a capture"),
    }
    // Off mode relays the reply to an emblem request untouched.
    assert!(matches!(
        plan_reply(&target_action(Mode::Passthrough, "/u1.slot_3"), true),
        ReplyPlan::Relay
    ));
}

#[test]
fn chunked_bodies_with_padded_hex_extensions_and_trailers_decode() {
    let raw = b"001A;name=value\r\nabcdefghijklmnopqrstuvwxyz\r\n0B\r\nhello world\r\n0\r\nX-T: 1\r\n\r\n";
    assert_eq!(decode(raw), b"abcdefghijklmnopqrstuvwxyzhello world".to_vec());
}

#[test]
fn the_head_ends_at_the_first_blank_line() {
    match split_head(b"HTTP/1.1 200 OK\r\nA: b\r\n\r\nbody\r\n\r\nmore", false) {
        HeadStep::Head { head, rest } => {
            assert_eq!(head, b"HTTP/1.1 200 OK\r\nA: b\r\n\r\n".to_vec());
            assert_eq!(rest, b"body\r\n\r\nmore".to_vec());
        }
        HeadStep::NeedMore => panic!("the head is complete"),
    }
    assert!(matches!(split_head(b"HTTP/1.1 200 OK\r\nA: b\r\n", false), HeadStep::NeedMore));
    match split_head(b"HTTP/1.1 200 OK\r\nA: b\r\n", true) {
        HeadStep::Head { head, rest } => {
            assert_eq!(head, b"HTTP/1.1 200 OK\r\nA: b\r\n".to_vec());
            assert!(rest.is_empty());
        }
        HeadStep::NeedMore => panic!("a closed connection ends the head"),
    }
}

#[test]
fn a_body_of_declared_length_is_cut_or_awaited() {
    assert_eq!(length_body_step(b"abcdef", 4, false), Some(b"abcd".to_vec()));
    assert_eq!(length_body_step(b"abcd", 4, false), Some(b"abcd".to_vec()));
    assert_eq!(length_body_step(b"ab", 4, false), None);
    assert_eq!(length_body_step(b"ab", 4, true), Some(b"ab".to_vec()));
    assert_eq!(length_body_step(b"abc", 0, false), Some(Vec::new()));
}
