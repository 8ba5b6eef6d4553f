use atomr_ontology::protocol::{body_prefix, head_step, HeadStep, MAX_HEAD_BYTES};
use atomr_ontology::protocol::{
    find_header_terminator, normalize_base_url, parse_request_head, reason_phrase, response_head, route, rpc_url,
    RemoteError, Route, RpcEnvelope, RpcMethod, RpcResponse, WireSortOrder,
};
use atomr_ontology::store::SortOrder;

#[test]
fn envelope_round_trips() {
    let env = RpcEnvelope::new(RpcMethod::GetNode.name().to_string(), 7u64);
    assert_eq!(env.method, "get_node");
    assert_eq!(env.params, 7);
    assert_eq!(RpcMethod::from_name(&env.method), Some(RpcMethod::GetNode));
}

#[test]
fn method_names_round_trip() {
    let all = [
        RpcMethod::UpsertNode,
        RpcMethod::UpsertEdge,
        RpcMethod::UpsertAxiom,
        RpcMethod::GetNode,
        RpcMethod::GetEdge,
        RpcMethod::MatchPattern,
        RpcMethod::Traverse,
        RpcMethod::Snapshot,
        RpcMethod::Diff,
        RpcMethod::Commit,
        RpcMethod::Provenance,
    ];
    for m in all {
        assert_eq!(RpcMethod::from_name(m.name()), Some(m));
    }
    assert_eq!(RpcMethod::MatchPattern.name(), "match_pattern");
    assert_eq!(RpcMethod::from_name("nope"), None);
}

#[test]
fn responses_carry_one_side() {
    let ok: RpcResponse<u64> = RpcResponse::ok(3);
    assert_eq!(ok.result, Some(3));
    assert!(ok.error.is_none());
    let err: RpcResponse<u64> = RpcResponse::err("boom".to_string());
    assert!(err.result.is_none());
    assert_eq!(err.error.as_deref(), Some("boom"));
}

#[test]
fn remote_error_messages() {
    assert_eq!(RemoteError::Transport("x".to_string()).message(), "transport error: x");
    assert_eq!(RemoteError::Server("y".to_string()).message(), "server error: y");
    assert_eq!(RemoteError::Encoding("z".to_string()).message(), "encoding error: z");
}

#[test]
fn sort_orders_map_both_ways() {
    assert_eq!(WireSortOrder::from_order(SortOrder::Descending), WireSortOrder::Descending);
    assert_eq!(WireSortOrder::Ascending.into_order(), SortOrder::Ascending);
}

#[test]
fn header_terminator_is_found() {
    assert_eq!(find_header_terminator(b"GET / HTTP/1.1\r\nHost: x\r\n\r\nbody"), Some(23));
    assert_eq!(find_header_terminator(b"\r\n\r"), None);
    assert_eq!(find_header_terminator(b"\r\n\r\n"), Some(0));
}

#[test]
fn urls_and_reasons() {
    assert_eq!(normalize_base_url("http://127.0.0.1:8080///"), "http://127.0.0.1:8080");
    assert_eq!(rpc_url(&"http://h".to_string(), RpcMethod::Commit), "http://h/rpc/commit");
    assert_eq!(reason_phrase(404), "Not Found");
    assert_eq!(reason_phrase(418), "Error");
}

#[test]
fn request_heads_are_parsed() {
    let h = parse_request_head("POST /rpc/get_node HTTP/1.1\r\nHost: x\r\nContent-LENGTH:  12 \r\n").unwrap();
    assert_eq!(h.method, "POST");
    assert_eq!(h.path, "/rpc/get_node");
    assert_eq!(h.content_length, 12);
    let h = parse_request_head("GET /\r\ncontent-length: 1\r\ncontent-length: +2").unwrap();
    assert_eq!(h.content_length, 2);
    let h = parse_request_head("GET /x").unwrap();
    assert_eq!(h.content_length, 0);
    let msg = |s: &str| match parse_request_head(s) {
        Err(RemoteError::Transport(m)) => m,
        other => panic!("expected transport error, got {other:?}"),
    };
    assert_eq!(msg(""), "missing method");
    assert_eq!(msg("POST"), "missing path");
    assert_eq!(msg("POST / HTTP/1.1\r\nContent-Length: x1"), "bad content-length: invalid digit found in string");
    assert_eq!(msg("POST / HTTP/1.1\r\nContent-Length:"), "bad content-length: cannot parse integer from empty string");
    assert_eq!(
        msg("POST / HTTP/1.1\r\nContent-Length: 99999999999999999999999"),
        "bad content-length: number too large to fit in target type"
    );
}

#[test]
fn routes() {
    assert!(matches!(route(&"POST".to_string(), &"/rpc/traverse".to_string()), Route::Rpc(n) if n == "traverse"));
    assert!(matches!(route(&"GET".to_string(), &"/rpc/traverse".to_string()), Route::MethodNotAllowed));
    assert!(matches!(route(&"POST".to_string(), &"/rpc/".to_string()), Route::UnknownRoute));
    assert!(matches!(route(&"POST".to_string(), &"/other".to_string()), Route::UnknownRoute));
}

#[test]
fn response_heads() {
    assert_eq!(
        response_head(200, 17),
        "HTTP/1.1 200 OK\r\nContent-Type: application/json\r\nContent-Length: 17\r\nConnection: close\r\n\r\n"
    );
    assert!(response_head(405, 0).starts_with("HTTP/1.1 405 Method Not Allowed\r\n"));
}

#[test]
fn head_reading_steps() {
    let buf = b"POST /x HTTP/1.1\r\nContent-Length: 2\r\n\r\nab".to_vec();
    assert_eq!(head_step(&buf, 0), HeadStep::Closed);
    assert_eq!(head_step(&buf, buf.len()), HeadStep::Complete(35));
    assert_eq!(body_prefix(&buf, 35), b"ab".to_vec());
    assert_eq!(head_step(&b"GET / HTTP/1.1\r\n".to_vec(), 3), HeadStep::ReadMore);
    let big = vec![b'a'; MAX_HEAD_BYTES + 1];
    assert_eq!(head_step(&big, 1), HeadStep::TooLarge);
    assert_eq!(body_prefix(&b"ab\r\n\r\n".to_vec(), 2), Vec::<u8>::new());
}
