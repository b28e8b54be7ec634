use ai_gateway::json::{parse_json, Json};
use ai_gateway::pricing::{get_model_price, Price};
use ai_gateway::prompt::{
    extract_and_normalize_prompt, extract_model_from_body, generate_cache_key, model_in, model_of_body,
    normalize_lower, normalize_text, path_is_chat, prompt_in,
};
use ai_gateway::text::string_of;

#[test]
fn model_of_a_request() {
    assert_eq!(extract_model_from_body(b"POST / HTTP/1.1\r\n\r\n{\"model\": \"gpt-4o\"}"), "gpt-4o");
    assert_eq!(extract_model_from_body(b"POST / HTTP/1.1\r\n\r\n{\"model\": 4}"), "unknown");
    assert_eq!(extract_model_from_body(b"POST / HTTP/1.1\r\n\r\n{\"model\": "), "unknown");
    assert_eq!(extract_model_from_body(b"POST / HTTP/1.1\r\n\r\n\xff"), "unknown");
    assert_eq!(extract_model_from_body(b"{\"model\": \"gpt-4o\"}"), "unknown");
    assert_eq!(model_of_body(b"{\"model\": \"gpt-4o\"}"), "gpt-4o");
    assert_eq!(model_of_body(b""), "unknown");
    let json = Json::Object(vec![("model".to_string(), Json::Text("m".to_string()))]);
    assert_eq!(model_in(&json), "m");
    assert_eq!(model_in(&Json::Null), "unknown");
}

#[test]
fn chat_paths() {
    assert!(path_is_chat("/v1/chat/completions"));
    assert!(path_is_chat("/chat/completions?x=1"));
    assert!(!path_is_chat("/v1/models"));
}

#[test]
fn normal_form_of_a_prompt() {
    assert_eq!(normalize_text("  Hello, World.  "), "hello world");
    assert_eq!(normalize_text("ÀÉ İ Σ"), "ÀÉ İ Σ".to_lowercase());
    assert_eq!(normalize_text(". a"), " a");
    assert_eq!(normalize_text(""), "");
    assert_eq!(string_of(&normalize_lower(" a.b, ")), "ab");
    assert_eq!(normalize_text(" \t\r\nHi there \u{b}\u{c} "), normalize_text("Hi there"));
    assert_eq!(normalize_text("\u{3000}\u{a0}Hi\u{2003}"), normalize_text("Hi"));
    assert_eq!(normalize_text("A\u{85}B"), "a\u{85}b");
    assert_eq!(normalize_text("WHAT is rust"), normalize_text("what IS Rust"));
}

#[test]
fn prompt_of_a_request() {
    let body = "{\"messages\": [{\"role\": \"system\", \"content\": \"Be Brief.\"}, {\"content\": 3}, {\"content\": \"Hi\"}]}";
    assert_eq!(extract_and_normalize_prompt(body), "be brief hi");
    assert_eq!(extract_and_normalize_prompt("{\"message\": \"Hi, you\"}"), "hi you");
    assert_eq!(
        extract_and_normalize_prompt("{\"messages\": \"no list\", \"message\": \"m\"}"),
        "m"
    );
    assert_eq!(extract_and_normalize_prompt("{\"messages\": [], \"message\": \"m\"}"), "");
    assert_eq!(extract_and_normalize_prompt("{}"), "");
    assert_eq!(extract_and_normalize_prompt("not json"), "");
    let json = Json::Object(vec![("message".to_string(), Json::Text("A b".to_string()))]);
    assert_eq!(prompt_in(&json), Some("A b".to_string()));
    assert_eq!(prompt_in(&Json::Array(vec![])), None);
}

#[test]
fn cache_keys() {
    assert_eq!(
        generate_cache_key("gpt-4o", "hello world"),
        "7c9bce09eab116da7715daf209d904f97143b4ab8bbbf90966710a9e2ab26240"
    );
    assert_eq!(
        generate_cache_key("", ""),
        "e7ac0786668e0ff0f02b62bd04f45ff636fd82db63b1104601c975dc005f3a67"
    );
    let one = extract_and_normalize_prompt("{\"message\": \"Hello, World\"}");
    let two = extract_and_normalize_prompt("{\"message\": \"hello world. \"}");
    assert_eq!(generate_cache_key("m", one.as_str()), generate_cache_key("m", two.as_str()));
    assert_ne!(generate_cache_key("m", "a"), generate_cache_key("n", "a"));
}

fn number(json: &Json) -> (Option<i64>, Option<u64>, String) {
    match json {
        Json::Number(n) => (n.signed, n.unsigned, n.text.clone()),
        _ => panic!("no number"),
    }
}

#[test]
fn json_documents() {
    let json = match parse_json("{\"b\": [1, -2, 2.5, null, true], \"a\": {\"x\": \"y\"}}") {
        Ok(v) => v,
        Err(e) => panic!("{}", e),
    };
    assert_eq!(json.get("a").and_then(|a| a.get_text("x")).cloned(), Some("y".to_string()));
    assert!(json.get("c").is_none());
    match json.get("b") {
        Some(Json::Array(items)) => {
            assert_eq!(items.len(), 5);
            assert_eq!(number(&items[0]), (Some(1), Some(1), "1".to_string()));
            assert_eq!(number(&items[1]), (Some(-2), None, "-2".to_string()));
            assert_eq!(number(&items[2]), (None, None, "2.5".to_string()));
            assert!(matches!(items[3], Json::Null));
            assert!(matches!(items[4], Json::Bool(true)));
        }
        _ => panic!("no array"),
    }
    assert_eq!(parse_json("{").err(), Some("EOF while parsing an object at line 1 column 1".to_string()));
    assert_eq!(json.get_signed("b"), 0);
    assert_eq!(json.get_count("zz"), 0);
    assert_eq!(json.get_text_or_empty("b"), "");
}

#[test]
fn prices() {
    assert_eq!(get_model_price("gpt-4o-mini-2024-07-18").input, 15);
    assert_eq!(get_model_price("gpt-4o-mini").output, 60);
    assert!(get_model_price("gpt-4o-2024") == Price { input: 500, output: 1500 });
    assert!(get_model_price("o1") == Price { input: 0, output: 0 });
    assert!(get_model_price("unknown") == Price { input: 0, output: 0 });
    assert_eq!(15.0f64 / 100000.0, 0.00015);
    assert_eq!(60.0f64 / 100000.0, 0.0006);
    assert_eq!(500.0f64 / 100000.0, 0.005);
    assert_eq!(1500.0f64 / 100000.0, 0.015);
}
