//! Error types.
//!
//! Two kinds of errors:
//! - [`StartupError`]: fatal startup failure (config, certificates, port in use); the process
//!   exits.
//! - [`GatewayError`]: request-time failure; rendered as an OpenAI-style JSON body.

use hyper::HeaderMap;
use vstd::prelude::*;
use vstd::string::*;
use vstd::utf8::*;

use crate::headers::{
    ascii_field_value, digits_field_value, field_name, header_values, insert_field, no_headers,
};
use crate::json::{
    fields_of, json_text, object_printable, object_view, print, printable, printable_with_more,
    Json, Tree, MAX_LEVELS,
};
use crate::table::ascending;
use crate::text::{before, decimal, digits};

verus! {

/// Fatal error raised during startup.
#[derive(Debug, Clone)]
pub struct StartupError(pub String);

impl StartupError {
    /// The message that is shown before the process exits.
    pub fn message(&self) -> (message: &str)
        ensures
            message@ == self.0@,
    {
        self.0.as_str()
    }
}

impl From<String> for StartupError {
    fn from(value: String) -> (r: Self) {
        StartupError(value)
    }
}

impl vstd::std_specs::convert::FromSpecImpl<String> for StartupError {
    open spec fn obeys_from_spec() -> bool {
        true
    }

    open spec fn from_spec(value: String) -> StartupError {
        StartupError(value)
    }
}

impl<'a> From<&'a str> for StartupError {
    fn from(value: &'a str) -> (r: Self)
        ensures
            r.0@ == value@,
    {
        StartupError(value.to_string())
    }
}

impl<'a> vstd::std_specs::convert::FromSpecImpl<&'a str> for StartupError {
    open spec fn obeys_from_spec() -> bool {
        false
    }

    open spec fn from_spec(value: &'a str) -> StartupError {
        arbitrary()
    }
}

/// An HTTP status code.
#[derive(Debug, Clone, Copy, PartialEq, Eq, Structural)]
pub struct StatusCode(pub u16);

impl StatusCode {
    pub fn as_u16(&self) -> (code: u16)
        ensures
            code == self.0,
    {
        self.0
    }

    /// 2xx.
    pub open spec fn success(self) -> bool {
        200 <= self.0 < 300
    }

    /// 4xx.
    pub open spec fn client_error(self) -> bool {
        400 <= self.0 < 500
    }

    /// 5xx.
    pub open spec fn server_error(self) -> bool {
        500 <= self.0 < 600
    }

    pub fn is_success(&self) -> (r: bool)
        ensures
            r == self.success(),
    {
        200 <= self.0 && self.0 < 300
    }

    pub fn is_client_error(&self) -> (r: bool)
        ensures
            r == self.client_error(),
    {
        400 <= self.0 && self.0 < 500
    }

    pub fn is_server_error(&self) -> (r: bool)
        ensures
            r == self.server_error(),
    {
        500 <= self.0 && self.0 < 600
    }
}

/// A response that the gateway answers by itself.
#[derive(Debug)]
pub struct Reply {
    pub status: StatusCode,
    pub headers: HeaderMap,
    pub body: Vec<u8>,
}

/// Request-time error carrying the HTTP status code returned to the client.
#[derive(Debug, Clone)]
pub struct GatewayError {
    pub status: StatusCode,
    pub message: String,
}

/// The body of an error response: `{"error":{"message":"...","type":"gateway_error"}}`.
pub open spec fn error_document(message: Seq<char>) -> Tree {
    Tree::Object(
        seq![
            (
                "error"@,
                Tree::Object(
                    seq![
                        ("message"@, Tree::Text(message)),
                        ("type"@, Tree::Text("gateway_error"@)),
                    ],
                ),
            ),
        ],
    )
}

impl GatewayError {
    pub fn new(status: StatusCode, message: &str) -> (error: Self)
        ensures
            error.status == status,
            error.message@ == message@,
    {
        GatewayError { status, message: message.to_string() }
    }

    /// 401: the caller key is missing or invalid.
    pub fn unauthorized(message: &str) -> (error: Self)
        ensures
            error.status.0 == 401,
            error.message@ == message@,
    {
        GatewayError::new(StatusCode(401), message)
    }

    /// 400: malformed request (no model specified, unparsable body, ...).
    pub fn bad_request(message: &str) -> (error: Self)
        ensures
            error.status.0 == 400,
            error.message@ == message@,
    {
        GatewayError::new(StatusCode(400), message)
    }

    /// 404: unknown model.
    pub fn not_found(message: &str) -> (error: Self)
        ensures
            error.status.0 == 404,
            error.message@ == message@,
    {
        GatewayError::new(StatusCode(404), message)
    }

    /// 413: request body exceeds the configured limit.
    pub fn payload_too_large(message: &str) -> (error: Self)
        ensures
            error.status.0 == 413,
            error.message@ == message@,
    {
        GatewayError::new(StatusCode(413), message)
    }

    /// 502: upstream unreachable or forwarding failed.
    pub fn bad_gateway(message: &str) -> (error: Self)
        ensures
            error.status.0 == 502,
            error.message@ == message@,
    {
        GatewayError::new(StatusCode(502), message)
    }

    /// 500: internal gateway error.
    pub fn internal(message: &str) -> (error: Self)
        ensures
            error.status.0 == 500,
            error.message@ == message@,
    {
        GatewayError::new(StatusCode(500), message)
    }

    /// The status code and the message, as they appear in diagnostics.
    pub fn text(&self) -> (text: String)
        ensures
            text@ == digits(self.status.0 as nat) + " "@ + self.message@,
    {
        let mut text = decimal(self.status.0 as u64);
        text.append(" ");
        text.append(self.message.as_str());
        text
    }

    /// Render as an OpenAI-style error response:
    /// `{"error":{"message":"...","type":"gateway_error"}}`
    pub fn into_response(self) -> (reply: Reply)
        ensures
            reply.status == self.status,
            reply.body@ == json_text(error_document(self.message@)),
            header_values(reply.headers) == map![
                "content-type"@ => seq![encode_utf8("application/json"@)],
                "content-length"@ => seq![encode_utf8(digits(reply.body@.len()))],
            ],
    {
        let document = error_json(self.message.clone());
        let body = print(&document);
        let length = decimal(body.len() as u64);
        let mut headers = no_headers();
        proof {
            reveal_strlit("content-type");
            reveal_strlit("content-length");
            reveal_strlit("application/json");
            assert(field_name("content-type"@));
            assert(field_name("content-length"@));
            ascii_field_value("application/json"@);
            digits_field_value(body@.len());
        }
        insert_field(&mut headers, "content-type", "application/json".as_bytes());
        insert_field(&mut headers, "content-length", length.as_str().as_bytes());
        assert(header_values(headers) == map![
            "content-type"@ => seq![encode_utf8("application/json"@)],
            "content-length"@ => seq![encode_utf8(digits(body@.len()))],
        ]);
        Reply { status: self.status, headers, body }
    }
}

fn error_json(message: String) -> (json: Json)
    ensures
        json@ == error_document(message@),
        printable(json@, MAX_LEVELS as nat),
{
    let mut inner: Vec<(String, Json)> = Vec::new();
    inner.push(("message".to_string(), Json::Text(message)));
    inner.push(("type".to_string(), Json::Text("gateway_error".to_string())));
    let ghost inner_trees = fields_of(inner@);
    proof {
        object_view(inner);
        assert(inner_trees == seq![
            ("message"@, Tree::Text(message@)),
            ("type"@, Tree::Text("gateway_error"@)),
        ]);
        reveal_strlit("message");
        reveal_strlit("type");
        assert(before("message"@, "type"@));
        assert(ascending(inner_trees));
        object_printable(inner_trees, 1);
    }
    let mut outer: Vec<(String, Json)> = Vec::new();
    outer.push(("error".to_string(), Json::Object(inner)));
    proof {
        object_view(outer);
        assert(fields_of(outer@) == seq![("error"@, Tree::Object(inner_trees))]);
        object_printable(fields_of(outer@), 2);
        printable_with_more(Tree::Object(fields_of(outer@)), 2, MAX_LEVELS as nat);
    }
    Json::Object(outer)
}

/// The body of an error response tells the message, character for character, and its type, in the
/// one field `error`.
pub proof fn error_body_tells_the_message(message: Seq<char>)
    ensures
        ({
            let inner = seq![
                ("message"@, Tree::Text(message)),
                ("type"@, Tree::Text("gateway_error"@)),
            ];
            error_document(message) == Tree::Object(seq![("error"@, Tree::Object(inner))])
        }),
{
}

/// Statuses are classed by their first digit.
pub proof fn statuses_are_classed_by_hundreds(status: StatusCode)
    ensures
        status.success() <==> status.0 / 100 == 2,
        status.client_error() <==> status.0 / 100 == 4,
        status.server_error() <==> status.0 / 100 == 5,
{
}

} // verus!
