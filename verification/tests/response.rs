use std::io::Write;

use ai_gateway::chunks::{chunks_ended, dechunk};
use ai_gateway::response::{
    extract_json, gzip_in_lines, length_in_lines, lower_is_chunked, read_framing, read_report,
    report_of_body, report_of_data, report_of_text, Framing,
};
use ai_gateway::text::chars_of;

const REPORT: &str = "{\"model\": \"gpt-4o-mini-2024\", \"usage\": {\"prompt_tokens\": 11, \"completion_tokens\": 7, \"total_tokens\": 18}}";

fn response(body: &[u8]) -> Vec<u8> {
    let mut out = b"HTTP/1.1 200 OK\r\n\r\n".to_vec();
    out.extend_from_slice(body);
    out
}

const PLAIN: Framing = Framing { chunked: false, length: None, gzip: false, bodyless: false };
const PACKED: Framing = Framing { chunked: false, length: None, gzip: true, bodyless: false };
const CHUNKED: Framing = Framing { chunked: true, length: None, gzip: false, bodyless: false };
const PACKED_CHUNKED: Framing = Framing { chunked: true, length: None, gzip: true, bodyless: false };

fn chunked(body: &[u8], size: usize) -> Vec<u8> {
    let mut out = Vec::new();
    for piece in body.chunks(size) {
        out.extend_from_slice(format!("{:x}\r\n", piece.len()).as_bytes());
        out.extend_from_slice(piece);
        out.extend_from_slice(b"\r\n");
    }
    out.extend_from_slice(b"0\r\n\r\n");
    out
}

#[test]
fn framing_of_a_response() {
    let f = read_framing("HTTP/1.1 200 OK\r\nContent-Length: 12\r\nContent-Encoding: GZIP\r\n\r\n");
    assert!(!f.chunked);
    assert_eq!(f.length, Some(12));
    assert!(f.gzip);
    let f = read_framing("HTTP/1.1 200 OK\r\nTransfer-Encoding: Chunked\r\n\r\n");
    assert!(f.chunked);
    assert_eq!(f.length, None);
    assert!(!f.gzip);
    assert_eq!(read_framing("content-length-x: 1:2\r\nContent-Length: 3\r\n\r\n").length, Some(1));
    assert_eq!(read_framing("content-length 3\r\n\r\n").length, None);
    assert_eq!(read_framing("content-length: x\r\ncontent-length: 3\r\n\r\n").length, None);
    assert!(!read_framing("x-content-encoding: gzip\r\n\r\n").gzip);
    assert!(!read_framing("").chunked);
    for status in ["204 No Content", "304 Not Modified", "100 Continue"] {
        assert!(read_framing(&format!("HTTP/1.1 {}\r\n\r\n", status)).bodyless);
    }
    for status in ["200 OK", "1 x", "2041 x", "404 Not Found", ""] {
        assert!(!read_framing(&format!("HTTP/1.1 {}\r\n\r\n", status)).bodyless);
    }
}

#[test]
fn framing_of_lines_in_lower_case() {
    let list = vec![chars_of("Content-Length: 5")];
    let lower = vec![chars_of("content-length: 5")];
    assert_eq!(length_in_lines(&list, &lower), Some(5));
    assert_eq!(length_in_lines(&list, &list), None);
    assert!(!gzip_in_lines(&lower));
    assert!(gzip_in_lines(&vec![chars_of("a"), chars_of("content-encoding: gzip, br")]));
    assert!(lower_is_chunked("x\r\ntransfer-encoding: chunked"));
    assert!(!lower_is_chunked("transfer-encoding:chunked"));
}

#[test]
fn document_in_a_body() {
    assert_eq!(extract_json("1f\r\n {\"a\": {}} \r\n0\r\n\r\n"), Some("{\"a\": {}}".to_string()));
    assert_eq!(extract_json("none"), None);
    assert_eq!(extract_json("{ open"), None);
    assert_eq!(extract_json("close }"), None);
    assert_eq!(extract_json("}{"), None);
    assert_eq!(extract_json("} x {"), None);
    assert_eq!(extract_json("} { }"), Some("{ }".to_string()));
}

#[test]
fn report_of_a_response() {
    let r = read_report(&response(REPORT.as_bytes()), PLAIN);
    assert_eq!(r.model, Some("gpt-4o-mini-2024".to_string()));
    assert_eq!(r.tokens.prompt_tokens, 11);
    assert_eq!(r.tokens.completion_tokens, 7);
    assert_eq!(r.tokens.total_tokens, 18);
}

#[test]
fn report_of_a_chunked_response() {
    for size in [1, 7, 50, 1000] {
        let r = read_report(&response(&chunked(REPORT.as_bytes(), size)), CHUNKED);
        assert_eq!(r.model, Some("gpt-4o-mini-2024".to_string()));
        assert_eq!(r.tokens.prompt_tokens, 11);
        assert_eq!(r.tokens.total_tokens, 18);
    }
    let r = read_report(&response(&chunked(REPORT.as_bytes(), 50)), PLAIN);
    assert_eq!(r.tokens.total_tokens, 0);
}

#[test]
fn report_of_a_compressed_response() {
    let mut encoder = flate2::write::GzEncoder::new(Vec::new(), flate2::Compression::default());
    encoder.write_all(REPORT.as_bytes()).unwrap();
    let packed = encoder.finish().unwrap();
    let r = read_report(&response(&packed), PACKED);
    assert_eq!(r.model, Some("gpt-4o-mini-2024".to_string()));
    assert_eq!(r.tokens.total_tokens, 18);
    let r = read_report(&response(&chunked(&packed, 13)), PACKED_CHUNKED);
    assert_eq!(r.tokens.total_tokens, 18);
    assert_eq!(report_of_data(&packed, true).tokens.total_tokens, 18);
    let r = read_report(&response(&packed), PLAIN);
    assert_eq!(r.model, None);
    let r = read_report(&response(REPORT.as_bytes()), PACKED);
    assert_eq!(r.model, None);
    assert_eq!(r.tokens.total_tokens, 0);
    let r = read_report(&response(&packed[..packed.len() - 4]), PACKED);
    assert_eq!(r.model, None);
}

#[test]
fn report_of_a_response_that_says_nothing() {
    for body in ["", "no json", "{broken}", "[1]", "{}", "} x {"] {
        let r = report_of_text(body);
        assert_eq!(r.model, None);
        assert_eq!(r.tokens.prompt_tokens, 0);
    }
    assert!(report_of_body(b"\xff\xfe{}").model.is_none());
    assert!(read_report(b"no blank line {\"model\": \"m\"}", PLAIN).model.is_none());
    assert!(read_report(&response(b"} x {"), PLAIN).model.is_none());
    let r = report_of_text("{\"usage\": {\"prompt_tokens\": -1, \"total_tokens\": 3.0}}");
    assert_eq!(r.tokens.prompt_tokens, 0);
    assert_eq!(r.tokens.total_tokens, 0);
}

#[test]
fn data_of_chunks() {
    assert_eq!(dechunk(b"5\r\nhello\r\n1;x=y\r\n!\r\n0\r\n\r\n"), b"hello!".to_vec());
    assert_eq!(dechunk(b"A\r\n0123456789\r\n0\r\n\r\n"), b"0123456789".to_vec());
    assert_eq!(dechunk(b"5\r\nhel"), b"hel".to_vec());
    assert_eq!(dechunk(b"3\r\nabc\r\nzz\r\n"), b"abc".to_vec());
    assert_eq!(dechunk(b"not chunked"), Vec::<u8>::new());
    assert_eq!(dechunk(b"fffffffffffffffffffffffff\r\nabc"), b"abc".to_vec());
    let body: Vec<u8> = (0..=255).collect();
    assert_eq!(dechunk(&chunked(&body, 19)), body);
}

#[test]
fn end_of_chunks() {
    assert!(chunks_ended(b"5\r\nhello\r\n0\r\n\r\n"));
    assert!(chunks_ended(b"0\r\n\r\n"));
    assert!(chunks_ended(b"0\r\nX: y\r\n\r\n"));
    assert!(!chunks_ended(b"0\r\nX: y\r\n"));
    assert!(!chunks_ended(b"10\r\n\r\n"));
    assert!(!chunks_ended(b"10\r\n\r\n0\r\n\r\n"));
    assert!(!chunks_ended(b"0\r\n\r"));
    assert!(!chunks_ended(b"7\r\n0\r\n\r\n12"));
}
