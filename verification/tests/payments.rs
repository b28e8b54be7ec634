use ai_gateway::accounts::{account_changed, Activation};
use ai_gateway::json::{parse_json, Json};
use ai_gateway::payments::{
    check_order, check_payment, code_matches, create_order, order_not_sent, order_url, payment_url,
    read_created_order, read_reply, reply_not_read, verify_signature, CheckActionOf, CheckStage,
    PaymentCheck,
};

const SIGNATURE: &str = "52115a0d3400de9e86aade1f1b6eba9e8974604f4e267a9e9a16633a4c8dd2cb";

fn json(text: &str) -> Json {
    match parse_json(text) {
        Ok(v) => v,
        Err(e) => panic!("{}", e),
    }
}

fn good_order() -> Json {
    json("{\"amount\": 12900, \"currency\": \"INR\", \"notes\": {\"user_id\": \"u\"}}")
}

fn good_payment() -> Json {
    json("{\"amount\": 12900, \"currency\": \"INR\", \"status\": \"captured\", \"order_id\": \"order_1\"}")
}

#[test]
fn signatures() {
    assert!(verify_signature("secret", "order_1", "pay_1", SIGNATURE));
    assert!(!verify_signature("secret", "order_1", "pay_2", SIGNATURE));
    assert!(!verify_signature("other", "order_1", "pay_1", SIGNATURE));
    assert!(!verify_signature("secret", "order_1", "pay_1", ""));
    assert!(!verify_signature("secret", "order_1", "pay_1", SIGNATURE.to_uppercase().as_str()));
    assert!(verify_signature(
        "k".repeat(100).as_str(),
        "o",
        "p",
        "4eadb207f3a64aedb53c517a5b089b812c66974d47bb3a456c1c6a67aec36e68"
    ));
    assert!(code_matches(&[0, 171, 255], "00abff"));
    assert!(!code_matches(&[0, 171, 255], "00ABFF"));
}

#[test]
fn placed_orders() {
    let order = create_order("u", "app", "n-1");
    assert_eq!(order.get_signed("amount"), 12900);
    assert_eq!(order.get_count("amount"), 12900);
    assert!(matches!(order.get("amount"), Some(Json::Number(n)) if n.text == "12900"));
    assert_eq!(order.get_text_or_empty("currency"), "INR");
    assert_eq!(order.get_text_or_empty("receipt"), "u-n-1");
    let notes = order.get("notes").unwrap();
    assert_eq!(notes.get_text_or_empty("user_id"), "u");
    assert_eq!(notes.get_text_or_empty("app_id"), "app");
    assert_eq!(notes.get_text_or_empty("plan"), "premium");
    assert_eq!(notes.get_text_or_empty("payment_type"), "one_time");
    assert_eq!(check_order(&order, "u"), Ok(()));
}

#[test]
fn addresses_of_the_provider() {
    assert_eq!(order_url("order_1"), "https://api.razorpay.com/v1/orders/order_1");
    assert_eq!(payment_url("pay_1"), "https://api.razorpay.com/v1/payments/pay_1");
}

#[test]
fn replies_of_the_provider() {
    assert_eq!(read_reply(404, "gone".to_string()).err(), Some("gone".to_string()));
    assert_eq!(read_reply(199, "{}".to_string()).err(), Some("{}".to_string()));
    assert_eq!(read_reply(300, "{}".to_string()).err(), Some("{}".to_string()));
    assert!(read_reply(200, "{}".to_string()).is_ok());
    assert!(read_reply(299, "{}".to_string()).is_ok());
    let reply = read_reply(200, "{\"fee\": 12.75, \"tax\": 4}".to_string());
    match reply.as_ref().ok().and_then(|r| r.get("fee")) {
        Some(Json::Number(n)) => assert_eq!(n.text, "12.75"),
        _ => panic!("no fee"),
    }
    assert_eq!(
        read_reply(200, "x".to_string()).err(),
        Some("expected value at line 1 column 1".to_string())
    );
    assert_eq!(
        read_created_order(200, "x".to_string()).err(),
        Some("Invalid Razorpay response: expected value at line 1 column 1".to_string())
    );
    assert_eq!(read_created_order(500, "x".to_string()).err(), Some("x".to_string()));
    assert!(read_created_order(201, "{\"id\": \"o\"}".to_string()).is_ok());
    assert_eq!(order_not_sent("e"), "Razorpay order request failed: e");
    assert_eq!(reply_not_read("e"), "Failed reading Razorpay response: e");
}

#[test]
fn faults_of_an_order() {
    let foreign = "Order does not belong to this user".to_string();
    let price = "Invalid order amount or currency".to_string();
    assert_eq!(check_order(&good_order(), "u"), Ok(()));
    assert_eq!(check_order(&good_order(), "v"), Err(foreign.clone()));
    assert_eq!(check_order(&json("{\"amount\": 12900, \"currency\": \"INR\"}"), "u"), Err(foreign));
    assert_eq!(
        check_order(&json("{\"amount\": 1, \"currency\": \"INR\", \"notes\": {\"user_id\": \"u\"}}"), "u"),
        Err(price.clone())
    );
    assert_eq!(
        check_order(&json("{\"amount\": 12900.0, \"currency\": \"INR\", \"notes\": {\"user_id\": \"u\"}}"), "u"),
        Err(price.clone())
    );
    assert_eq!(
        check_order(&json("{\"amount\": 12900, \"currency\": \"USD\", \"notes\": {\"user_id\": \"u\"}}"), "u"),
        Err(price)
    );
    assert_eq!(check_order(&json("{\"amount\": 12900, \"currency\": \"INR\"}"), ""), Ok(()));
}

#[test]
fn faults_of_a_payment() {
    let capture = "Payment has not been successfully captured".to_string();
    assert_eq!(check_payment(&good_payment(), "order_1"), Ok(()));
    assert_eq!(
        check_payment(&good_payment(), "order_2"),
        Err("Payment does not belong to order".to_string())
    );
    let cases = [
        "{\"amount\": 12900, \"currency\": \"INR\", \"status\": \"failed\", \"order_id\": \"order_1\"}",
        "{\"amount\": 12901, \"currency\": \"INR\", \"status\": \"captured\", \"order_id\": \"order_1\"}",
        "{\"amount\": 12900, \"currency\": \"EUR\", \"status\": \"captured\", \"order_id\": \"order_1\"}",
        "{\"order_id\": \"order_1\"}",
    ];
    for case in cases {
        assert_eq!(check_payment(&json(case), "order_1"), Err(capture.clone()));
    }
}

#[test]
fn a_payment_in_order_is_accepted() {
    let (mut check, first) = PaymentCheck::start("secret", "u", "order_1", "pay_1", SIGNATURE);
    assert!(matches!(first, CheckActionOf::FetchOrder(ref id) if id == "order_1"));
    let second = check.on_reply(Ok(good_order()));
    assert!(matches!(second, CheckActionOf::FetchPayment(ref id) if id == "pay_1"));
    let third = check.on_reply(Ok(good_payment()));
    assert!(matches!(third, CheckActionOf::Accept));
    assert!(check.stage == CheckStage::Done);
}

#[test]
fn a_payment_is_refused_at_the_first_fault() {
    let (check, action) = PaymentCheck::start("secret", "u", "order_1", "pay_1", "00");
    assert!(check.stage == CheckStage::Done);
    assert!(matches!(action, CheckActionOf::Reject(ref m) if m == "Invalid payment signature"));

    let (mut check, _) = PaymentCheck::start_signed(true, "v", "order_1", "pay_1");
    let action = check.on_reply(Ok(good_order()));
    assert!(matches!(action, CheckActionOf::Reject(ref m) if m == "Order does not belong to this user"));
    assert!(check.stage == CheckStage::Done);

    let (mut check, _) = PaymentCheck::start_signed(true, "u", "order_1", "pay_1");
    let action = check.on_reply(Err("down".to_string()));
    assert!(matches!(action, CheckActionOf::Reject(ref m) if m == "down"));

    let (mut check, _) = PaymentCheck::start_signed(true, "u", "order_2", "pay_1");
    check.on_reply(Ok(good_order()));
    let action = check.on_reply(Ok(good_payment()));
    assert!(matches!(action, CheckActionOf::Reject(ref m) if m == "Payment does not belong to order"));
    assert!(check.stage == CheckStage::Done);
}

#[test]
fn activation_of_the_premium_plan() {
    assert!(!account_changed(0));
    assert!(account_changed(2));
    let start = Activation::start();
    assert!(start.on_rows(0) == Activation::Finished(false));
    assert!(start.on_rows(1) == Activation::Recording);
    assert!(start.on_rows(1).on_rows(1) == Activation::Finished(true));
    assert!(start.on_rows(0).on_rows(5) == Activation::Finished(false));
}
