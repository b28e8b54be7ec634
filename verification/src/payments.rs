//! Orders and payments of the payment provider.
use vstd::prelude::*;
use vstd::utf8::encode_utf8;

use crate::digest::{hex_of, hmac_of, hmac_sha256, lower_hex};
use crate::json::{json_in, or_empty, parse_json, Json, JsonView, NumberOf};
use crate::number::{decimal, push_decimal};
use crate::text::same_text;

verus! {

/// What the premium plan costs, in hundredths of a rupee.
pub const PREMIUM_AMOUNT: i64 = 12900;

/// An integer that is not negative, as a JSON number.
pub open spec fn whole(n: i64) -> JsonView {
    JsonView::Number(
        NumberOf { signed: Some(n), unsigned: Some(n as u64), text: decimal(n as nat) },
    )
}

/// The order that is placed for a user of an app. The receipt is made unique by `nonce`.
pub open spec fn order_for(user_id: Seq<char>, app_id: Seq<char>, nonce: Seq<char>) -> JsonView {
    JsonView::Object(
        seq![
            ("amount"@, whole(PREMIUM_AMOUNT)),
            ("currency"@, JsonView::Text("INR"@)),
            ("receipt"@, JsonView::Text(user_id + "-"@ + nonce)),
            (
                "notes"@,
                JsonView::Object(
                    seq![
                        ("user_id"@, JsonView::Text(user_id)),
                        ("app_id"@, JsonView::Text(app_id)),
                        ("plan"@, JsonView::Text("premium"@)),
                        ("payment_type"@, JsonView::Text("one_time"@)),
                    ],
                ),
            ),
        ],
    )
}

/// Writes the order for a user of an app.
pub fn create_order(user_id: &str, app_id: &str, nonce: &str) -> (r: Json)
    ensures
        r@ == order_for(user_id@, app_id@, nonce@),
{
    proof {
        reveal_with_fuel(Json::tree, 3);
    }
    let mut receipt = String::from_str(user_id);
    receipt.append("-");
    receipt.append(nonce);
    let mut notes: Vec<(String, Json)> = Vec::new();
    notes.push((String::from_str("user_id"), Json::Text(String::from_str(user_id))));
    notes.push((String::from_str("app_id"), Json::Text(String::from_str(app_id))));
    notes.push((String::from_str("plan"), Json::Text(String::from_str("premium"))));
    notes.push((String::from_str("payment_type"), Json::Text(String::from_str("one_time"))));
    let notes = Json::Object(notes);
    assert(notes@->Object_0 =~= order_for(user_id@, app_id@, nonce@)->Object_0[3].1->Object_0);
    let mut digits = String::new();
    push_decimal(&mut digits, 12900);
    assert(digits@ =~= decimal(12900));
    let amount = NumberOf { signed: Some(PREMIUM_AMOUNT), unsigned: Some(12900), text: digits };
    let mut order: Vec<(String, Json)> = Vec::new();
    order.push((String::from_str("amount"), Json::Number(amount)));
    order.push((String::from_str("currency"), Json::Text(String::from_str("INR"))));
    order.push((String::from_str("receipt"), Json::Text(receipt)));
    order.push((String::from_str("notes"), notes));
    let order = Json::Object(order);
    assert(order@->Object_0 =~= order_for(user_id@, app_id@, nonce@)->Object_0);
    order
}

/// Where an order is read.
pub fn order_url(order_id: &str) -> (r: String)
    ensures
        r@ == "https://api.razorpay.com/v1/orders/"@ + order_id@,
{
    let mut url = String::from_str("https://api.razorpay.com/v1/orders/");
    url.append(order_id);
    url
}

/// Where a payment is read.
pub fn payment_url(payment_id: &str) -> (r: String)
    ensures
        r@ == "https://api.razorpay.com/v1/payments/"@ + payment_id@,
{
    let mut url = String::from_str("https://api.razorpay.com/v1/payments/");
    url.append(payment_id);
    url
}

/// A response status that tells of success.
pub open spec fn is_success(status: u16) -> bool {
    200 <= status < 300
}

/// What the provider's reply says: the document in it, or a message. A reply without success is
/// a message itself.
pub open spec fn reply_in(status: u16, body: Seq<char>) -> Result<JsonView, Seq<char>> {
    if is_success(status) {
        json_in(body)
    } else {
        Err(body)
    }
}

/// What a result holds.
pub open spec fn reply_view(r: Result<Json, String>) -> Result<JsonView, Seq<char>> {
    match r {
        Ok(v) => Ok(v@),
        Err(e) => Err(e@),
    }
}

/// Reads the provider's reply to a request for an order or a payment.
pub fn read_reply(status: u16, body: String) -> (r: Result<Json, String>)
    ensures
        reply_view(r) == reply_in(status, body@),
{
    if status >= 200 && status < 300 {
        parse_json(body.as_str())
    } else {
        Err(body)
    }
}

/// What the provider's reply to a new order says.
pub open spec fn created_in(status: u16, body: Seq<char>) -> Result<JsonView, Seq<char>> {
    match reply_in(status, body) {
        Ok(v) => Ok(v),
        Err(e) => if is_success(status) {
            Err("Invalid Razorpay response: "@ + e)
        } else {
            Err(e)
        },
    }
}

/// Reads the provider's reply to a new order.
pub fn read_created_order(status: u16, body: String) -> (r: Result<Json, String>)
    ensures
        reply_view(r) == created_in(status, body@),
{
    match read_reply(status, body) {
        Ok(v) => Ok(v),
        Err(e) => if status >= 200 && status < 300 {
            let mut message = String::from_str("Invalid Razorpay response: ");
            message.append(e.as_str());
            Err(message)
        } else {
            Err(e)
        },
    }
}

/// What the signature of a payment signs.
pub open spec fn signed_text(order_id: Seq<char>, payment_id: Seq<char>) -> Seq<char> {
    order_id + "|"@ + payment_id
}

/// The signature of a payment under the given secret.
pub open spec fn signature_of(
    key_secret: Seq<char>,
    order_id: Seq<char>,
    payment_id: Seq<char>,
) -> Seq<char> {
    lower_hex(
        hmac_sha256(encode_utf8(key_secret), encode_utf8(signed_text(order_id, payment_id))),
    )
}

/// The form of every signature: 64 lower-case hexadecimal digits.
pub open spec fn is_code_text(s: Seq<char>) -> bool {
    &&& s.len() == 64
    &&& forall|i: int|
        0 <= i < s.len() ==> ('0' <= #[trigger] s[i] <= '9' || 'a' <= s[i] <= 'f')
}

/// Tells whether a signature is the hexadecimal text of a code.
pub fn code_matches(code: &[u8], signature: &str) -> (r: bool)
    ensures
        r == (lower_hex(code@) == signature@),
{
    same_text(hex_of(code).as_str(), signature)
}

/// Tells whether the signature of a payment is right.
pub fn verify_signature(
    key_secret: &str,
    order_id: &str,
    payment_id: &str,
    signature: &str,
) -> (r: bool)
    ensures
        r == (signature_of(key_secret@, order_id@, payment_id@) == signature@),
        r ==> is_code_text(signature@),
{
    let mut payload = String::from_str(order_id);
    payload.append("|");
    payload.append(payment_id);
    let code = hmac_of(key_secret.as_bytes(), payload.as_str().as_bytes());
    assert(is_code_text(lower_hex(code@)));
    code_matches(&code, signature)
}

/// The user that an order names.
pub open spec fn order_user(order: JsonView) -> Seq<char> {
    match order.member("notes"@) {
        Some(notes) => or_empty(notes.text_at("user_id"@)),
        None => Seq::empty(),
    }
}

/// A document is about the price of the premium plan.
pub open spec fn is_premium_price(document: JsonView) -> bool {
    &&& document.signed_at("amount"@) == PREMIUM_AMOUNT
    &&& or_empty(document.text_at("currency"@)) == "INR"@
}

/// What is wrong with an order of the given user.
pub open spec fn order_fault(order: JsonView, user_id: Seq<char>) -> Option<Seq<char>> {
    if order_user(order) != user_id {
        Some("Order does not belong to this user"@)
    } else if !is_premium_price(order) {
        Some("Invalid order amount or currency"@)
    } else {
        None
    }
}

/// What is wrong with a payment of the given order.
pub open spec fn payment_fault(payment: JsonView, order_id: Seq<char>) -> Option<Seq<char>> {
    if or_empty(payment.text_at("order_id"@)) != order_id {
        Some("Payment does not belong to order"@)
    } else if !is_premium_price(payment) || or_empty(payment.text_at("status"@)) != "captured"@ {
        Some("Payment has not been successfully captured"@)
    } else {
        None
    }
}

/// A result is the given fault, or success where there is none.
pub open spec fn fault_is(r: Result<(), String>, fault: Option<Seq<char>>) -> bool {
    match fault {
        Some(message) => r is Err && r->Err_0@ == message,
        None => r is Ok,
    }
}

fn has_premium_price(document: &Json) -> (r: bool)
    ensures
        r == is_premium_price(document@),
{
    document.get_signed("amount") == PREMIUM_AMOUNT && same_text(
        document.get_text_or_empty("currency").as_str(),
        "INR",
    )
}

/// Checks that an order is one of the user, at the right price.
pub fn check_order(order: &Json, user_id: &str) -> (r: Result<(), String>)
    ensures
        fault_is(r, order_fault(order@, user_id@)),
{
    let owner = match order.get("notes") {
        Some(notes) => notes.get_text_or_empty("user_id"),
        None => String::new(),
    };
    if !same_text(owner.as_str(), user_id) {
        return Err(String::from_str("Order does not belong to this user"));
    }
    if !has_premium_price(order) {
        return Err(String::from_str("Invalid order amount or currency"));
    }
    Ok(())
}

/// Checks that a payment is one of the order, at the right price, and captured.
pub fn check_payment(payment: &Json, order_id: &str) -> (r: Result<(), String>)
    ensures
        fault_is(r, payment_fault(payment@, order_id@)),
{
    let owner = payment.get_text_or_empty("order_id");
    if !same_text(owner.as_str(), order_id) {
        return Err(String::from_str("Payment does not belong to order"));
    }
    let state = payment.get_text_or_empty("status");
    if !has_premium_price(payment) || !same_text(state.as_str(), "captured") {
        return Err(String::from_str("Payment has not been successfully captured"));
    }
    Ok(())
}

/// The message for an order that could not be sent.
pub fn order_not_sent(detail: &str) -> (r: String)
    ensures
        r@ == "Razorpay order request failed: "@ + detail@,
{
    let mut message = String::from_str("Razorpay order request failed: ");
    message.append(detail);
    message
}

/// The message for an order whose reply could not be read.
pub fn reply_not_read(detail: &str) -> (r: String)
    ensures
        r@ == "Failed reading Razorpay response: "@ + detail@,
{
    let mut message = String::from_str("Failed reading Razorpay response: ");
    message.append(detail);
    message
}

/// How far the check of a payment has come.
#[derive(Clone, Copy, PartialEq, Eq, Structural)]
pub enum CheckStage {
    /// The order is being fetched.
    Order,
    /// The payment is being fetched.
    Payment,
    /// The check is over.
    Done,
}

/// A payment that is being checked, `T` being the type of a text.
pub struct CheckOf<T> {
    pub user_id: T,
    pub order_id: T,
    pub payment_id: T,
    pub stage: CheckStage,
}

/// What the check of a payment needs or has come to, `T` being the type of a text.
pub enum CheckActionOf<T> {
    /// Fetch the order with the given identifier.
    FetchOrder(T),
    /// Fetch the payment with the given identifier.
    FetchPayment(T),
    /// The payment is in order.
    Accept,
    /// The payment is refused with the given message.
    Reject(T),
}

/// A payment that is being checked.
pub type PaymentCheck = CheckOf<String>;

/// What a [`PaymentCheck`] holds.
pub type CheckView = CheckOf<Seq<char>>;

/// What the check of a payment needs or has come to.
pub type CheckAction = CheckActionOf<String>;

/// What a [`CheckAction`] holds.
pub type CheckActionView = CheckActionOf<Seq<char>>;

impl View for CheckOf<String> {
    type V = CheckOf<Seq<char>>;

    open spec fn view(&self) -> CheckOf<Seq<char>> {
        CheckOf {
            user_id: self.user_id@,
            order_id: self.order_id@,
            payment_id: self.payment_id@,
            stage: self.stage,
        }
    }
}

impl View for CheckActionOf<String> {
    type V = CheckActionOf<Seq<char>>;

    open spec fn view(&self) -> CheckActionOf<Seq<char>> {
        match self {
            CheckActionOf::FetchOrder(s) => CheckActionOf::FetchOrder(s@),
            CheckActionOf::FetchPayment(s) => CheckActionOf::FetchPayment(s@),
            CheckActionOf::Accept => CheckActionOf::Accept,
            CheckActionOf::Reject(s) => CheckActionOf::Reject(s@),
        }
    }
}

/// How the check of a payment starts, by whether its signature is right.
pub open spec fn check_start(
    signed: bool,
    user_id: Seq<char>,
    order_id: Seq<char>,
    payment_id: Seq<char>,
) -> (CheckView, CheckActionView) {
    if signed {
        (
            CheckOf { user_id, order_id, payment_id, stage: CheckStage::Order },
            CheckActionOf::FetchOrder(order_id),
        )
    } else {
        (
            CheckOf { user_id, order_id, payment_id, stage: CheckStage::Done },
            CheckActionOf::Reject("Invalid payment signature"@),
        )
    }
}

/// How the check of a payment goes on with the provider's reply.
pub open spec fn check_next(check: CheckView, reply: Result<JsonView, Seq<char>>) -> (
    CheckView,
    CheckActionView,
) {
    let done = CheckOf { stage: CheckStage::Done, ..check };
    match reply {
        Err(message) => (done, CheckActionOf::Reject(message)),
        Ok(document) => if check.stage == CheckStage::Order {
            match order_fault(document, check.user_id) {
                Some(message) => (done, CheckActionOf::Reject(message)),
                None => (
                    CheckOf { stage: CheckStage::Payment, ..check },
                    CheckActionOf::FetchPayment(check.payment_id),
                ),
            }
        } else {
            match payment_fault(document, check.order_id) {
                Some(message) => (done, CheckActionOf::Reject(message)),
                None => (done, CheckActionOf::Accept),
            }
        },
    }
}

impl CheckOf<String> {
    /// Starts to check a payment: its signature comes first.
    pub fn start(
        key_secret: &str,
        user_id: &str,
        order_id: &str,
        payment_id: &str,
        signature: &str,
    ) -> (r: (PaymentCheck, CheckAction))
        ensures
            (r.0@, r.1@) == check_start(
                signature_of(key_secret@, order_id@, payment_id@) == signature@,
                user_id@,
                order_id@,
                payment_id@,
            ),
            r.1 is FetchOrder ==> is_code_text(signature@),
    {
        let signed = verify_signature(key_secret, order_id, payment_id, signature);
        Self::start_signed(signed, user_id, order_id, payment_id)
    }

    /// Starts to check a payment whose signature is right or is not.
    pub fn start_signed(signed: bool, user_id: &str, order_id: &str, payment_id: &str) -> (r: (
        PaymentCheck,
        CheckAction,
    ))
        ensures
            (r.0@, r.1@) == check_start(signed, user_id@, order_id@, payment_id@),
    {
        let stage = if signed {
            CheckStage::Order
        } else {
            CheckStage::Done
        };
        let check = CheckOf {
            user_id: String::from_str(user_id),
            order_id: String::from_str(order_id),
            payment_id: String::from_str(payment_id),
            stage,
        };
        let action = if signed {
            CheckActionOf::FetchOrder(String::from_str(order_id))
        } else {
            CheckActionOf::Reject(String::from_str("Invalid payment signature"))
        };
        (check, action)
    }

    /// Goes on with the provider's reply to the request that was asked for.
    pub fn on_reply(&mut self, reply: Result<Json, String>) -> (r: CheckAction)
        requires
            old(self).stage != CheckStage::Done,
        ensures
            (final(self)@, r@) == check_next(old(self)@, reply_view(reply)),
    {
        let stage = self.stage;
        self.stage = CheckStage::Done;
        let document = match reply {
            Ok(document) => document,
            Err(message) => {
                return CheckActionOf::Reject(message);
            },
        };
        if let CheckStage::Order = stage {
            match check_order(&document, self.user_id.as_str()) {
                Ok(()) => {
                    self.stage = CheckStage::Payment;
                    CheckActionOf::FetchPayment(self.payment_id.clone())
                },
                Err(message) => CheckActionOf::Reject(message),
            }
        } else {
            match check_payment(&document, self.order_id.as_str()) {
                Ok(()) => CheckActionOf::Accept,
                Err(message) => CheckActionOf::Reject(message),
            }
        }
    }
}

/// What the check of a payment comes to, by its signature and what the provider replies.
pub open spec fn check_outcome(
    signed: bool,
    user_id: Seq<char>,
    order_id: Seq<char>,
    payment_id: Seq<char>,
    order: Result<JsonView, Seq<char>>,
    payment: Result<JsonView, Seq<char>>,
) -> CheckActionView {
    let first = check_start(signed, user_id, order_id, payment_id);
    if first.1 is FetchOrder {
        let second = check_next(first.0, order);
        if second.1 is FetchPayment {
            check_next(second.0, payment).1
        } else {
            second.1
        }
    } else {
        first.1
    }
}

/// A payment is accepted if and only if its signature is right, its order is one of the user at
/// the price of the premium plan, and the payment is one of that order, at that price and
/// captured. Otherwise it is refused.
pub proof fn law_accepted_means_all_checks_hold(
    signed: bool,
    user_id: Seq<char>,
    order_id: Seq<char>,
    payment_id: Seq<char>,
    order: Result<JsonView, Seq<char>>,
    payment: Result<JsonView, Seq<char>>,
)
    ensures
        ({
            let outcome = check_outcome(signed, user_id, order_id, payment_id, order, payment);
            &&& outcome is Accept <==> {
                &&& signed
                &&& order is Ok
                &&& order_user(order->Ok_0) == user_id
                &&& is_premium_price(order->Ok_0)
                &&& payment is Ok
                &&& or_empty(payment->Ok_0.text_at("order_id"@)) == order_id
                &&& is_premium_price(payment->Ok_0)
                &&& or_empty(payment->Ok_0.text_at("status"@)) == "captured"@
            }
            &&& outcome is Accept || outcome is Reject
            &&& !signed ==> outcome == CheckActionOf::Reject("Invalid payment signature"@)
        }),
{
}

/// An order that was placed for a user passes the check of that user's orders.
pub proof fn law_placed_order_passes(user_id: Seq<char>, app_id: Seq<char>, nonce: Seq<char>)
    ensures
        order_fault(order_for(user_id, app_id, nonce), user_id) is None,
{
    reveal_with_fuel(crate::json::lookup, 5);
    reveal_strlit("amount");
    reveal_strlit("currency");
    reveal_strlit("receipt");
    reveal_strlit("notes");
    reveal_strlit("user_id");
    let order = order_for(user_id, app_id, nonce);
    let entries = order->Object_0;
    assert(entries.skip(1)[0] == entries[1]);
    assert(entries.skip(1).skip(1)[0] == entries[2]);
    assert(entries.skip(1).skip(1).skip(1)[0] == entries[3]);
    assert("amount"@.len() == 6 && "currency"@.len() == 8 && "receipt"@.len() == 7
        && "notes"@.len() == 5);
    assert(order.member("amount"@) == Some(whole(PREMIUM_AMOUNT)));
    assert(order.member("currency"@) == Some(JsonView::Text("INR"@)));
    assert(order.member("notes"@) == Some(entries[3].1));
    assert(entries[3].1.member("user_id"@) == Some(JsonView::Text(user_id)));
}

/// The text that a member of a document holds; empty where it holds none.
spec fn text_or_empty(member: Option<JsonView>) -> Seq<char> {
    match member {
        Some(JsonView::Text(t)) => t,
        _ => Seq::empty(),
    }
}

/// A member is the integer that the premium plan costs.
pub open spec fn is_plan_amount(member: Option<JsonView>) -> bool {
    member matches Some(JsonView::Number(n)) && n.signed == Some(12900i64)
}

/// A member is the given text.
pub open spec fn is_text(member: Option<JsonView>, text: Seq<char>) -> bool {
    member matches Some(JsonView::Text(t)) && t == text
}

/// A member is the given text, or is missing or of another kind where the text is empty.
pub open spec fn names_text(member: Option<JsonView>, text: Seq<char>) -> bool {
    match member {
        Some(JsonView::Text(t)) => t == text,
        _ => text.len() == 0,
    }
}

/// What the order of a payment says of its user.
pub open spec fn owner_member(order: JsonView) -> Option<JsonView> {
    match order.member("notes"@) {
        Some(notes) => notes.member("user_id"@),
        None => None,
    }
}

/// A payment is accepted if and only if it is signed, the amount and the currency of its order and
/// its own are 12900 and INR, the order names the user, and the payment names the order and is
/// captured. No other member of either document matters.
pub proof fn law_accepted_by_its_documents(
    signed: bool,
    user_id: Seq<char>,
    order_id: Seq<char>,
    payment_id: Seq<char>,
    order: JsonView,
    payment: JsonView,
)
    ensures
        check_outcome(signed, user_id, order_id, payment_id, Ok(order), Ok(payment)) is Accept
            <==> {
            &&& signed
            &&& names_text(owner_member(order), user_id)
            &&& is_plan_amount(order.member("amount"@))
            &&& is_text(order.member("currency"@), "INR"@)
            &&& names_text(payment.member("order_id"@), order_id)
            &&& is_plan_amount(payment.member("amount"@))
            &&& is_text(payment.member("currency"@), "INR"@)
            &&& is_text(payment.member("status"@), "captured"@)
        },
{
    reveal_strlit("INR");
    reveal_strlit("captured");
    lemma_names_text(owner_member(order), user_id);
    lemma_names_text(payment.member("order_id"@), order_id);
    assert("INR"@.len() == 3);
    assert("captured"@.len() == 8);
}

proof fn lemma_names_text(member: Option<JsonView>, text: Seq<char>)
    ensures
        names_text(member, text) <==> text_or_empty(member) == text,
{
    if text.len() == 0 {
        assert(text =~= Seq::empty());
    }
}

/// Two orders that agree on the notes, the amount and the currency, and two payments that agree on
/// the order, the amount, the currency and the status, come to the same.
pub proof fn law_other_members_do_not_matter(
    signed: bool,
    user_id: Seq<char>,
    order_id: Seq<char>,
    payment_id: Seq<char>,
    order: JsonView,
    other_order: JsonView,
    payment: JsonView,
    other_payment: JsonView,
)
    requires
        order.member("notes"@) == other_order.member("notes"@),
        order.member("amount"@) == other_order.member("amount"@),
        order.member("currency"@) == other_order.member("currency"@),
        payment.member("order_id"@) == other_payment.member("order_id"@),
        payment.member("amount"@) == other_payment.member("amount"@),
        payment.member("currency"@) == other_payment.member("currency"@),
        payment.member("status"@) == other_payment.member("status"@),
    ensures
        check_outcome(signed, user_id, order_id, payment_id, Ok(order), Ok(payment))
            == check_outcome(
            signed,
            user_id,
            order_id,
            payment_id,
            Ok(other_order),
            Ok(other_payment),
        ),
{
}

/// A payment is refused for the first thing that is wrong: its signature, the owner of its order,
/// the price of that, the order that it names, or its own price and status. What the provider
/// reports in place of a document is passed on.
pub proof fn law_first_fault_is_reported(
    user_id: Seq<char>,
    order_id: Seq<char>,
    payment_id: Seq<char>,
    order: JsonView,
    payment: JsonView,
    message: Seq<char>,
    any: Result<JsonView, Seq<char>>,
)
    ensures
        check_outcome(false, user_id, order_id, payment_id, any, any) == CheckActionOf::Reject(
            "Invalid payment signature"@,
        ),
        check_outcome(true, user_id, order_id, payment_id, Err(message), any)
            == CheckActionOf::Reject(message),
        !names_text(owner_member(order), user_id) ==> check_outcome(
            true,
            user_id,
            order_id,
            payment_id,
            Ok(order),
            any,
        ) == CheckActionOf::Reject("Order does not belong to this user"@),
        names_text(owner_member(order), user_id) && !(is_plan_amount(order.member("amount"@))
            && is_text(order.member("currency"@), "INR"@)) ==> check_outcome(
            true,
            user_id,
            order_id,
            payment_id,
            Ok(order),
            any,
        ) == CheckActionOf::Reject("Invalid order amount or currency"@),
        names_text(owner_member(order), user_id) && is_plan_amount(order.member("amount"@))
            && is_text(order.member("currency"@), "INR"@) ==> {
            &&& check_outcome(true, user_id, order_id, payment_id, Ok(order), Err(message))
                == CheckActionOf::Reject(message)
            &&& !names_text(payment.member("order_id"@), order_id) ==> check_outcome(
                true,
                user_id,
                order_id,
                payment_id,
                Ok(order),
                Ok(payment),
            ) == CheckActionOf::Reject("Payment does not belong to order"@)
            &&& names_text(payment.member("order_id"@), order_id) && !(is_plan_amount(
                payment.member("amount"@),
            ) && is_text(payment.member("currency"@), "INR"@) && is_text(
                payment.member("status"@),
                "captured"@,
            )) ==> check_outcome(true, user_id, order_id, payment_id, Ok(order), Ok(payment))
                == CheckActionOf::Reject("Payment has not been successfully captured"@)
        },
{
    reveal_strlit("INR");
    reveal_strlit("captured");
    lemma_names_text(owner_member(order), user_id);
    lemma_names_text(payment.member("order_id"@), order_id);
    assert("INR"@.len() == 3);
    assert("captured"@.len() == 8);
}

/// A signed payment has its order fetched first, by the order's identifier, and then itself, by its
/// own.
pub proof fn law_documents_are_fetched_by_identifier(
    user_id: Seq<char>,
    order_id: Seq<char>,
    payment_id: Seq<char>,
    order: JsonView,
)
    ensures
        ({
            let first = check_start(true, user_id, order_id, payment_id);
            let second = check_next(first.0, Ok(order));
            &&& first.1 == CheckActionOf::FetchOrder(order_id)
            &&& second.1 is FetchPayment || second.1 is Reject
            &&& second.1 is FetchPayment ==> second.1 == CheckActionOf::FetchPayment(payment_id)
        }),
{
}

/// A reply is a document where its status is one of success, from 200 to 299, and else a message.
pub proof fn law_replies(status: u16, body: Seq<char>)
    ensures
        200 <= status <= 299 ==> reply_in(status, body) == json_in(body),
        !(200 <= status <= 299) ==> reply_in(status, body) == Err::<JsonView, Seq<char>>(body),
        !(200 <= status <= 299) ==> created_in(status, body) == Err::<JsonView, Seq<char>>(body),
        200 <= status <= 299 && json_in(body) is Ok ==> created_in(status, body) == json_in(body),
        200 <= status <= 299 && json_in(body) is Err ==> created_in(status, body) == Err::<
            JsonView,
            Seq<char>,
        >("Invalid Razorpay response: "@ + json_in(body)->Err_0),
{
}

/// The signature of a payment is the hexadecimal text of the code of its order and itself, with a
/// bar between them, under the secret. So payments of an order that differ have different texts
/// signed.
pub proof fn law_signature_covers_order_and_payment(
    key_secret: Seq<char>,
    order_id: Seq<char>,
    payment_id: Seq<char>,
    other: Seq<char>,
)
    ensures
        signature_of(key_secret, order_id, payment_id) == lower_hex(
            hmac_sha256(encode_utf8(key_secret), encode_utf8(order_id + "|"@ + payment_id)),
        ),
        payment_id != other ==> order_id + "|"@ + payment_id != order_id + "|"@ + other,
{
    let n = (order_id + "|"@).len() as int;
    assert((order_id + "|"@ + payment_id).skip(n) =~= payment_id);
    assert((order_id + "|"@ + other).skip(n) =~= other);
}

/// A placed order is for the price of the premium plan, and names its user, the app and the plan;
/// its receipt begins with the user.
pub proof fn law_order_says_what_is_bought(user_id: Seq<char>, app_id: Seq<char>, nonce: Seq<char>)
    ensures
        ({
            let order = order_for(user_id, app_id, nonce);
            let notes = order.member("notes"@);
            &&& order.member("amount"@) == Some(
                JsonView::Number(
                    NumberOf { signed: Some(12900), unsigned: Some(12900), text: "12900"@ },
                ),
            )
            &&& order->Object_0.len() == 4
            &&& notes->0->Object_0.len() == 4
            &&& is_text(order.member("currency"@), "INR"@)
            &&& is_text(order.member("receipt"@), user_id + "-"@ + nonce)
            &&& notes is Some
            &&& is_text(notes->0.member("user_id"@), user_id)
            &&& is_text(notes->0.member("app_id"@), app_id)
            &&& is_text(notes->0.member("plan"@), "premium"@)
            &&& is_text(notes->0.member("payment_type"@), "one_time"@)
        }),
{
    reveal_with_fuel(crate::json::lookup, 6);
    reveal_strlit("12900");
    reveal_with_fuel(decimal, 5);
    assert(decimal(12900) =~= "12900"@);
    reveal_strlit("amount");
    reveal_strlit("currency");
    reveal_strlit("receipt");
    reveal_strlit("notes");
    reveal_strlit("user_id");
    reveal_strlit("app_id");
    reveal_strlit("plan");
    reveal_strlit("payment_type");
    let order = order_for(user_id, app_id, nonce);
    let entries = order->Object_0;
    assert(entries.skip(1)[0] == entries[1]);
    assert(entries.skip(1).skip(1)[0] == entries[2]);
    assert(entries.skip(1).skip(1).skip(1)[0] == entries[3]);
    assert("amount"@.len() == 6 && "currency"@.len() == 8 && "receipt"@.len() == 7
        && "notes"@.len() == 5);
    assert("user_id"@.len() == 7 && "app_id"@.len() == 6 && "plan"@.len() == 4
        && "payment_type"@.len() == 12);
    let notes = entries[3].1;
    assert(order.member("notes"@) == Some(notes));
    let inner = notes->Object_0;
    assert(inner.skip(1)[0] == inner[1]);
    assert(inner.skip(1).skip(1)[0] == inner[2]);
    assert(inner.skip(1).skip(1).skip(1)[0] == inner[3]);
}

} // verus!
