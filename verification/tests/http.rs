use ai_gateway::http::{
    authenticate, body_bytes, content_length, find_body, format_response, has_chunked_coding,
    head_bytes, ok_response, parse_request, plain_response, rewrite_host,
};

const CHAT: &str = "POST /v1/chat/completions HTTP/1.1\r\nHost: localhost:8080\r\nX-API-Key:  user1 \r\nContent-Length: 12\r\n\r\nbody: ignored";

#[test]
fn request_line_and_headers() {
    let req = parse_request(CHAT);
    assert_eq!(req.method, "POST");
    assert_eq!(req.path, "/v1/chat/completions");
    assert_eq!(req.version, "HTTP/1.1");
    assert_eq!(req.header("Host"), Some("localhost:8080".to_string()));
    assert_eq!(req.header("host"), None);
    assert_eq!(req.header("body"), None);
    assert_eq!(authenticate(&req), Some("user1".to_string()));
    assert_eq!(content_length(&req), 12);
}

#[test]
fn what_is_missing_is_empty() {
    let req = parse_request("");
    assert_eq!(req.method, "");
    assert_eq!(req.path, "");
    assert_eq!(req.version, "");
    assert_eq!(authenticate(&req), None);
    assert_eq!(content_length(&req), 0);
    let req = parse_request("GET\r\nno colon here\r\nA: 1\r\nA: 2\r\nContent-Length: x\r\n\r\n");
    assert_eq!(req.method, "GET");
    assert_eq!(req.path, "");
    assert_eq!(req.header("A"), Some("2".to_string()));
    assert_eq!(content_length(&req), 0);
}

#[test]
fn body_begins_after_the_blank_line() {
    assert_eq!(find_body(b"a\r\n\r\nb\r\n\r\n"), Some(5));
    assert_eq!(find_body(b"a\r\n\r"), None);
}

#[test]
fn only_the_host_is_rewritten() {
    let head = rewrite_host(CHAT.as_bytes(), "api.openai.com");
    let text = String::from_utf8(head).unwrap();
    assert_eq!(
        text,
        "POST /v1/chat/completions HTTP/1.1\r\nHost: api.openai.com\r\nX-API-Key:  user1 \r\nContent-Length: 12\r\n\r\n"
    );
    assert_eq!(
        rewrite_host(b"GET / HTTP/1.1\r\nhOsT: a\r\nB: c\r\n\r\nx", "h"),
        b"GET / HTTP/1.1\r\nHost: h\r\nB: c\r\n\r\n".to_vec()
    );
    assert_eq!(rewrite_host(b"GET / HTTP/1.1\r\nB: c\r\n\r\nx", "h"), b"GET / HTTP/1.1\r\nB: c\r\n\r\n".to_vec());
    assert_eq!(rewrite_host(b"Host: a", "h"), b"Host: a".to_vec());
    assert_eq!(
        rewrite_host(b"G\r\nX-Host: a\r\nX-Forwarded-Host: c\r\nHost: b\r\nE: f\r\n\r\n", "h"),
        b"G\r\nX-Host: a\r\nX-Forwarded-Host: c\r\nHost: h\r\nE: f\r\n\r\n".to_vec()
    );
    assert_eq!(
        rewrite_host(b"G\r\nX-Host: a\r\n\r\n", "h"),
        b"G\r\nX-Host: a\r\n\r\n".to_vec()
    );
    assert_eq!(
        rewrite_host(b"G\nHost: a\nE: f\r\n\r\n", "h"),
        b"G\nHost: h\nE: f\r\n\r\n".to_vec()
    );
    assert_eq!(
        rewrite_host(b"G\r\nHost: a\r\nHost: b\r\n\r\n", "h"),
        b"G\r\nHost: h\r\nHost: b\r\n\r\n".to_vec()
    );
}

#[test]
fn chunks_are_announced_by_the_field_alone() {
    let yes = [
        "P / H\r\nTransfer-Encoding: chunked\r\n\r\n",
        "P / H\r\nA: b\r\ntransfer-encoding:CHUNKED \r\n\r\n",
        "P / H\r\nTransfer-Encoding: gzip, chunked\r\n\r\n",
    ];
    for text in yes {
        assert!(has_chunked_coding(text), "{:?}", text);
    }
    let no = [
        "",
        "Transfer-Encoding: chunked\r\n\r\n",
        "P / H\r\nX-Note: transfer-encoding: chunked\r\n\r\n",
        "P / H\r\nX-Transfer-Encoding: chunked\r\n\r\n",
        "P / H\r\nTransfer-Encoding: chunked, gzip\r\n\r\n",
        "P / H\r\nTransfer-Encoding: identity\r\n\r\n",
        "P / H\r\nA: b\r\n\r\nTransfer-Encoding: chunked\r\n",
    ];
    for text in no {
        assert!(!has_chunked_coding(text), "{:?}", text);
    }
}

#[test]
fn header_and_body_of_a_buffer() {
    assert_eq!(head_bytes(b"a\r\n\r\nb"), b"a\r\n\r\n".to_vec());
    assert_eq!(head_bytes(b"a\r\n"), b"a\r\n".to_vec());
    assert_eq!(body_bytes(b"a\r\n\r\nb"), b"b".to_vec());
    assert_eq!(body_bytes(b"a\r\n"), Vec::<u8>::new());
}

#[test]
fn responses_carry_their_length_in_bytes() {
    assert_eq!(
        ok_response("text/plain", "hé"),
        "HTTP/1.1 200 OK\r\nContent-Type: text/plain\r\nContent-Length: 3\r\n\r\nhé"
    );
    assert_eq!(
        plain_response("429 Too Many Requests", "no"),
        "HTTP/1.1 429 Too Many Requests\r\nContent-Length: 2\r\n\r\nno"
    );
    assert_eq!(
        format_response("404 Not Found", "", "id-1", 17),
        "HTTP/1.1 404 Not Found\r\nX-Request-ID: id-1\r\nX-Response-Time: 17ms\r\nContent-Length: 0\r\n\r\n"
    );
}
