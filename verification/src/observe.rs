//! Observability: request IDs, the per-request log record and the response body meter.

use hyper::HeaderMap;
use std::time::Instant;
use vstd::prelude::*;
use vstd::string::*;
use vstd::utf8::*;

use crate::error::StatusCode;
use crate::gateway::UsageObserver;
use crate::headers::{
    field_name, first_value_is_read_as_written, header_text, header_values,
    other_values_are_not_text, padded_value_is_trimmed, text_of,
};
use crate::text::{
    decimal, digits, text_view, trim, trimmed, trimming_leaves_nothing_of_white_space,
};
use crate::usage::{counters_sum, scanned, scanned_all};

verus! {

/// `std::time::Instant`, the time when something happened.
#[verifier::external_type_specification]
#[verifier::external_body]
pub struct ExInstant(std::time::Instant);

/// The token counters an upstream reported.
#[derive(Debug, Clone, Copy, PartialEq, Eq)]
pub struct TokenUsage {
    pub prompt_tokens: Option<u64>,
    pub completion_tokens: Option<u64>,
    pub total_tokens: Option<u64>,
    pub reasoning_tokens: Option<u64>,
    pub cached_tokens: Option<u64>,
}

/// Header used both to accept a caller supplied request ID and to echo it back.
pub const REQUEST_ID_HEADER: &'static str = "x-request-id";

/// Longest request ID accepted from a caller; anything longer is replaced.
pub const MAX_REQUEST_ID_LEN: usize = 128;

/// Whether `id` can be used as a request ID: it is not empty nor too long, and all ASCII without
/// control characters, as it ends up verbatim in every log line and response header.
pub open spec fn usable_id(id: Seq<char>) -> bool {
    0 < id.len() <= MAX_REQUEST_ID_LEN && forall|i: int|
        0 <= i < id.len() ==> ' ' <= #[trigger] id[i] <= '~'
}

/// The request ID that the caller supplied, if it is usable.
pub open spec fn supplied_id(fields: Map<Seq<char>, Seq<Seq<u8>>>) -> Option<Seq<char>> {
    match text_of(fields, "x-request-id"@) {
        Some(raw) if usable_id(trimmed(raw)) => Some(trimmed(raw)),
        _ => None,
    }
}

/// A hexadecimal digit.
pub open spec fn hex(n: int) -> char {
    if n < 10 {
        (n + 48) as char
    } else {
        (n + 87) as char
    }
}

/// Whether `c` is a hexadecimal digit in lower case.
pub open spec fn is_hex(c: char) -> bool {
    '0' <= c <= '9' || 'a' <= c <= 'f'
}

/// The first `n` bytes of an identifier in hexadecimal, with the dashes between its groups.
pub open spec fn uuid_prefix(bytes: Seq<u8>, n: int) -> Seq<char>
    decreases n,
{
    if n <= 0 {
        Seq::empty()
    } else {
        uuid_prefix(bytes, n - 1) + (if n == 5 || n == 7 || n == 9 || n == 11 {
            seq!['-']
        } else {
            Seq::empty()
        }) + seq![hex(bytes[n - 1] as int / 16), hex(bytes[n - 1] as int % 16)]
    }
}

/// `bytes` marked as a random identifier: version 4 and the RFC 4122 variant.
pub open spec fn marked(bytes: Seq<u8>) -> Seq<u8> {
    bytes.update(6, (bytes[6] % 16 + 64) as u8).update(8, (bytes[8] % 64 + 128) as u8)
}

/// The identifier that sixteen random bytes make.
pub open spec fn uuid_text(bytes: Seq<u8>) -> Seq<char> {
    uuid_prefix(marked(bytes), 16)
}

/// Whether `id` has the shape of a UUID v4.
pub open spec fn uuid_shaped(id: Seq<char>) -> bool {
    &&& id.len() == 36
    &&& forall|i: int|
        #![trigger id[i]]
        0 <= i < 36 ==> if i == 8 || i == 13 || i == 18 || i == 23 {
            id[i] == '-'
        } else {
            is_hex(id[i])
        }
    &&& id[14] == '4'
    &&& id[19] == '8' || id[19] == '9' || id[19] == 'a' || id[19] == 'b'
}

/// Where the characters of byte `n` start.
spec fn uuid_place(n: int) -> int {
    2 * n + (if n > 4 { 1int } else { 0 }) + (if n > 6 { 1int } else { 0 }) + (if n > 8 {
        1int
    } else {
        0
    }) + (if n > 10 { 1int } else { 0 })
}

proof fn uuid_prefix_shape(bytes: Seq<u8>, n: int)
    requires
        0 <= n <= 16,
        bytes.len() == 16,
    ensures
        uuid_prefix(bytes, n).len() == uuid_place(n),
        forall|i: int|
            #![trigger uuid_prefix(bytes, n)[i]]
            0 <= i < uuid_place(n) ==> if i == 8 || i == 13 || i == 18 || i == 23 {
                uuid_prefix(bytes, n)[i] == '-'
            } else {
                is_hex(uuid_prefix(bytes, n)[i])
            },
        n > 6 ==> uuid_prefix(bytes, n)[14] == hex(bytes[6] as int / 16),
        n > 8 ==> uuid_prefix(bytes, n)[19] == hex(bytes[8] as int / 16),
    decreases n,
{
    if n > 0 {
        uuid_prefix_shape(bytes, n - 1);
        assert(is_hex(hex(bytes[n - 1] as int / 16)));
        assert(is_hex(hex(bytes[n - 1] as int % 16)));
    }
}

/// Whatever the random bytes are, the identifier has the shape of a UUID v4.
pub proof fn uuid_has_shape(bytes: Seq<u8>)
    requires
        bytes.len() == 16,
    ensures
        uuid_shaped(uuid_text(bytes)),
{
    uuid_prefix_shape(marked(bytes), 16);
}

/// `getrandom::getrandom`: sixteen random bytes, or nothing when there is no source of them.
#[verifier::external_body]
fn random_bytes() -> (r: Option<Vec<u8>>)
    ensures
        r matches Some(bytes) ==> bytes@.len() == 16,
{
    let mut bytes = vec![0u8; 16];
    getrandom::getrandom(&mut bytes).ok().map(|_| bytes)
}

/// `std::time::SystemTime::now` as nanoseconds since 1970.
#[verifier::external_body]
fn unix_nanos() -> u128 {
    std::time::SystemTime::now()
        .duration_since(std::time::UNIX_EPOCH)
        .unwrap_or_default()
        .as_nanos()
}

/// The last `count` bytes of `n`, the least significant first.
pub open spec fn low_bytes(n: nat, count: nat) -> Seq<u8>
    decreases count,
{
    if count == 0 {
        Seq::empty()
    } else {
        seq![(n % 256) as u8] + low_bytes(n / 256, (count - 1) as nat)
    }
}

/// The sixteen bytes of `n`, the least significant first.
fn le_bytes(n: u128) -> (bytes: Vec<u8>)
    ensures
        bytes@ == low_bytes(n as nat, 16),
        bytes@.len() == 16,
{
    let mut bytes: Vec<u8> = Vec::new();
    let mut rest = n;
    while bytes.len() < 16
        invariant
            bytes@.len() <= 16,
            bytes@ + low_bytes(rest as nat, (16 - bytes@.len()) as nat) == low_bytes(n as nat, 16),
        decreases 16 - bytes@.len(),
    {
        let ghost was = bytes@;
        let ghost left = (16 - was.len()) as nat;
        bytes.push((rest % 256) as u8);
        assert(bytes@ + low_bytes(rest as nat / 256, (left - 1) as nat) == was + low_bytes(
            rest as nat,
            left,
        ));
        rest = rest / 256;
    }
    assert(bytes@ + low_bytes(rest as nat, 0) == bytes@);
    bytes
}

fn hex_digit(n: u8) -> (c: char)
    requires
        n < 16,
    ensures
        c == hex(n as int),
{
    if n < 10 {
        (n + 48) as char
    } else {
        (n + 87) as char
    }
}

/// The identifier that sixteen bytes make.
pub fn uuid_from_bytes(bytes: &Vec<u8>) -> (id: String)
    requires
        bytes@.len() == 16,
    ensures
        id@ == uuid_text(bytes@),
        uuid_shaped(id@),
{
    let mut id = String::new();
    let ghost all = marked(bytes@);
    let mut i: usize = 0;
    while i < 16
        invariant
            i <= 16 == bytes@.len(),
            all == marked(bytes@),
            id@ == uuid_prefix(all, i as int),
        decreases 16 - i,
    {
        if i == 4 || i == 6 || i == 8 || i == 10 {
            id.push('-');
        }
        let byte: u8 = if i == 6 {
            bytes[i] % 16 + 64
        } else if i == 8 {
            bytes[i] % 64 + 128
        } else {
            bytes[i]
        };
        assert(byte == all[i as int]);
        id.push(hex_digit(byte / 16));
        id.push(hex_digit(byte % 16));
        i = i + 1;
        assert(id@ == uuid_prefix(all, i as int));
    }
    proof {
        uuid_has_shape(bytes@);
    }
    id
}

/// Random UUID v4 shaped identifier, matching what people expect from `x-request-id`.
pub fn generate_request_id() -> (id: String)
    ensures
        uuid_shaped(id@),
{
    match random_bytes() {
        Some(bytes) => uuid_from_bytes(&bytes),
        // Fall back to a time based value so a request never ends up without an ID.
        None => uuid_from_bytes(&le_bytes(unix_nanos())),
    }
}

/// Reuse the incoming request ID when the caller supplied a usable one, otherwise generate one.
///
/// Unusable means empty, longer than [`MAX_REQUEST_ID_LEN`], non ASCII or containing control
/// characters: such a value would end up verbatim in every log line and response header.
pub fn request_id(headers: &HeaderMap) -> (id: String)
    ensures
        match supplied_id(header_values(*headers)) {
            Some(supplied) => id@ == supplied,
            None => uuid_shaped(id@),
        },
        usable_id(id@),
{
    proof {
        reveal_strlit("x-request-id");
        assert(field_name("x-request-id"@));
    }
    if let Some(raw) = header_text(headers, REQUEST_ID_HEADER) {
        let id = trim(raw.as_str());
        if is_usable_id(id) {
            return id.to_string();
        }
    }
    let id = generate_request_id();
    proof {
        assert forall|i: int| 0 <= i < id@.len() implies ' ' <= #[trigger] id@[i] <= '~' by {
            assert(id@[i] == '-' || is_hex(id@[i]));
        }
    }
    id
}

fn is_usable_id(id: &str) -> (r: bool)
    ensures
        r == usable_id(id@),
{
    let chars = crate::text::chars_of(id);
    if chars.len() == 0 || chars.len() > MAX_REQUEST_ID_LEN {
        return false;
    }
    let mut i: usize = 0;
    while i < chars.len()
        invariant
            i <= chars@.len(),
            chars@ == id@,
            forall|k: int| 0 <= k < i ==> ' ' <= #[trigger] id@[k] <= '~',
        decreases chars@.len() - i,
    {
        if !(' ' <= chars[i] && chars[i] <= '~') {
            assert(!(' ' <= id@[i as int] <= '~'));
            return false;
        }
        i = i + 1;
    }
    true
}

/// How loud a log line is.
#[derive(Debug, Clone, Copy, PartialEq, Eq, Structural)]
pub enum Level {
    Debug,
    Info,
    Warn,
}

/// Everything one request contributes to its log line. The line is emitted once the
/// response body is done, so the byte counts and the latency are the real ones.
#[derive(Debug)]
pub struct RequestLog {
    pub request_id: String,
    pub method: String,
    pub path: String,
    pub started: Instant,
    /// Caller description from `auth.keys`, `-` in the log when auth is disabled.
    pub caller: Option<String>,
    pub model: Option<String>,
    pub upstream: Option<String>,
    pub status: StatusCode,
    /// `true` for server-sent event responses.
    pub streaming: bool,
    pub request_bytes: u64,
    /// Thinking effort the caller asked for.
    pub effort: Option<String>,
    /// Token budget the caller asked for.
    pub max_tokens: Option<u64>,
    /// Number of completions the caller asked for.
    pub requested_choices: Option<u64>,
    /// Token counters the upstream reported.
    pub usage: Option<TokenUsage>,
    pub error: Option<String>,
}

/// One line of the request log.
#[derive(Debug)]
pub struct LogLine {
    pub level: Level,
    /// What became of the request.
    pub outcome: &'static str,
    /// The fields of the line, in order.
    pub fields: Vec<(&'static str, String)>,
}

/// A text, or `-` where there is none.
pub open spec fn or_dash(text: Option<Seq<char>>) -> Seq<char> {
    match text {
        Some(text) => text,
        None => "-"@,
    }
}

/// A number, or `-` where there is none.
pub open spec fn count_or_dash(count: Option<u64>) -> Seq<char> {
    match count {
        Some(count) => digits(count as nat),
        None => "-"@,
    }
}

pub open spec fn truth(b: bool) -> Seq<char> {
    if b {
        "true"@
    } else {
        "false"@
    }
}

/// The counters of a request for which none may have been reported.
pub open spec fn counters_of(usage: Option<TokenUsage>) -> TokenUsage {
    match usage {
        Some(usage) => usage,
        None => TokenUsage {
            prompt_tokens: None,
            completion_tokens: None,
            total_tokens: None,
            reasoning_tokens: None,
            cached_tokens: None,
        },
    }
}

/// The fields of the line for `log` when it took `elapsed_ms` milliseconds and `response_bytes`
/// bytes were sent.
pub open spec fn log_fields(
    log: RequestLog,
    elapsed_ms: u64,
    response_bytes: u64,
    aborted: bool,
) -> Seq<(Seq<char>, Seq<char>)> {
    let usage = counters_of(log.usage);
    seq![
        ("request_id"@, log.request_id@),
        ("caller"@, or_dash(text_view(log.caller))),
        ("model"@, or_dash(text_view(log.model))),
        ("upstream"@, or_dash(text_view(log.upstream))),
        ("status"@, digits(log.status.0 as nat)),
        ("elapsed_ms"@, digits(elapsed_ms as nat)),
        ("request_bytes"@, digits(log.request_bytes as nat)),
        ("response_bytes"@, digits(response_bytes as nat)),
        ("stream"@, truth(log.streaming)),
        ("aborted"@, truth(aborted)),
        ("effort"@, or_dash(text_view(log.effort))),
        ("max_tokens"@, count_or_dash(log.max_tokens)),
        ("requested_choices"@, count_or_dash(log.requested_choices)),
        ("prompt_tokens"@, count_or_dash(usage.prompt_tokens)),
        ("completion_tokens"@, count_or_dash(usage.completion_tokens)),
        ("total_tokens"@, count_or_dash(usage.total_tokens)),
        ("reasoning_tokens"@, count_or_dash(usage.reasoning_tokens)),
        ("cached_tokens"@, count_or_dash(usage.cached_tokens)),
        ("method"@, log.method@),
        ("path"@, log.path@),
        ("error"@, or_dash(text_view(log.error))),
    ]
}

/// Whether a request failed: with an error of the gateway, or with a `4xx` or `5xx` status.
pub open spec fn failed(log: RequestLog) -> bool {
    log.error is Some || log.status.client_error() || log.status.server_error()
}

/// What became of a request.
pub open spec fn outcome_of(log: RequestLog, aborted: bool) -> Seq<char> {
    if log.error is Some {
        "request failed"@
    } else if aborted {
        "request aborted"@
    } else {
        "request completed"@
    }
}

/// The names and values of the fields of a line.
pub open spec fn line_fields(fields: Seq<(&'static str, String)>) -> Seq<(Seq<char>, Seq<char>)> {
    fields.map_values(|field: (&'static str, String)| (field.0@, field.1@))
}

/// The first `n` fields written one behind the other.
pub open spec fn fields_written(fields: Seq<(Seq<char>, Seq<char>)>, n: int) -> Seq<char>
    decreases n,
{
    if n <= 0 {
        Seq::empty()
    } else {
        fields_written(fields, n - 1) + " "@ + fields[n - 1].0 + "="@ + fields[n - 1].1
    }
}

fn text_or_dash(text: Option<String>) -> (r: String)
    ensures
        r@ == or_dash(text_view(text)),
{
    match text {
        Some(text) => text,
        None => "-".to_string(),
    }
}

fn write_count(count: Option<u64>) -> (r: String)
    ensures
        r@ == count_or_dash(count),
{
    match count {
        Some(count) => decimal(count),
        None => "-".to_string(),
    }
}

fn write_truth(b: bool) -> (r: String)
    ensures
        r@ == truth(b),
{
    if b {
        "true".to_string()
    } else {
        "false".to_string()
    }
}

/// `std::time::Instant::elapsed`, in milliseconds.
#[verifier::external_body]
fn millis_since(time: &Instant) -> u64 {
    time.elapsed().as_millis() as u64
}

impl RequestLog {
    /// Start a record for one request; everything else is filled in as it progresses.
    pub fn new(request_id: String, method: String, path: String, started: Instant) -> (log: Self)
        ensures
            log == (RequestLog {
                request_id,
                method,
                path,
                started,
                caller: None,
                model: None,
                upstream: None,
                status: StatusCode(200),
                streaming: false,
                request_bytes: 0,
                effort: None,
                max_tokens: None,
                requested_choices: None,
                usage: None,
                error: None,
            }),
    {
        RequestLog {
            request_id,
            method,
            path,
            started,
            caller: None,
            model: None,
            upstream: None,
            status: StatusCode(200),
            streaming: false,
            request_bytes: 0,
            effort: None,
            max_tokens: None,
            requested_choices: None,
            usage: None,
            error: None,
        }
    }

    /// The log line of a request that took `elapsed_ms` milliseconds. `aborted` means the
    /// response body was dropped before the stream ended, which is what a disconnected client
    /// looks like. Failed and aborted requests are worth a warning.
    pub fn finish_after(self, elapsed_ms: u64, response_bytes: u64, aborted: bool) -> (line: LogLine)
        ensures
            line.level == (if failed(self) || aborted {
                Level::Warn
            } else {
                Level::Info
            }),
            line.outcome@ == outcome_of(self, aborted),
            line_fields(line.fields@) == log_fields(self, elapsed_ms, response_bytes, aborted),
    {
        let failed = self.error.is_some() || self.status.is_client_error()
            || self.status.is_server_error();
        let level = if failed || aborted {
            Level::Warn
        } else {
            Level::Info
        };
        let outcome = if self.error.is_some() {
            "request failed"
        } else if aborted {
            "request aborted"
        } else {
            "request completed"
        };
        let usage = match self.usage {
            Some(usage) => usage,
            None => TokenUsage {
                prompt_tokens: None,
                completion_tokens: None,
                total_tokens: None,
                reasoning_tokens: None,
                cached_tokens: None,
            },
        };
        let mut fields: Vec<(&'static str, String)> = Vec::new();
        fields.push(("request_id", self.request_id));
        fields.push(("caller", text_or_dash(self.caller)));
        fields.push(("model", text_or_dash(self.model)));
        fields.push(("upstream", text_or_dash(self.upstream)));
        fields.push(("status", decimal(self.status.0 as u64)));
        fields.push(("elapsed_ms", decimal(elapsed_ms)));
        fields.push(("request_bytes", decimal(self.request_bytes)));
        fields.push(("response_bytes", decimal(response_bytes)));
        fields.push(("stream", write_truth(self.streaming)));
        fields.push(("aborted", write_truth(aborted)));
        fields.push(("effort", text_or_dash(self.effort)));
        fields.push(("max_tokens", write_count(self.max_tokens)));
        fields.push(("requested_choices", write_count(self.requested_choices)));
        fields.push(("prompt_tokens", write_count(usage.prompt_tokens)));
        fields.push(("completion_tokens", write_count(usage.completion_tokens)));
        fields.push(("total_tokens", write_count(usage.total_tokens)));
        fields.push(("reasoning_tokens", write_count(usage.reasoning_tokens)));
        fields.push(("cached_tokens", write_count(usage.cached_tokens)));
        fields.push(("method", self.method));
        fields.push(("path", self.path));
        fields.push(("error", text_or_dash(self.error)));
        assert(line_fields(fields@) =~= log_fields(self, elapsed_ms, response_bytes, aborted));
        LogLine { level, outcome, fields }
    }

    /// The log line of a request that is done now, see [`RequestLog::finish_after`].
    pub fn finish(self, response_bytes: u64, aborted: bool) -> (line: LogLine)
        ensures
            line.level == (if failed(self) || aborted {
                Level::Warn
            } else {
                Level::Info
            }),
            line.outcome@ == outcome_of(self, aborted),
            exists|elapsed_ms: u64|
                line_fields(line.fields@) == #[trigger] log_fields(
                    self,
                    elapsed_ms,
                    response_bytes,
                    aborted,
                ),
    {
        let elapsed_ms = millis_since(&self.started);
        self.finish_after(elapsed_ms, response_bytes, aborted)
    }
}

impl LogLine {
    /// The outcome and the fields, unquoted so that the log stays greppable.
    pub fn message(&self) -> (text: String)
        ensures
            text@ == self.outcome@ + fields_written(
                line_fields(self.fields@),
                self.fields@.len() as int,
            ),
    {
        let ghost fields = line_fields(self.fields@);
        let mut text = self.outcome.to_string();
        let mut i: usize = 0;
        while i < self.fields.len()
            invariant
                i <= self.fields@.len(),
                fields == line_fields(self.fields@),
                text@ == self.outcome@ + fields_written(fields, i as int),
            decreases self.fields@.len() - i,
        {
            assert(fields[i as int] == (self.fields@[i as int].0@, self.fields@[i as int].1@));
            text.append(" ");
            text.append(self.fields[i].0);
            text.append("=");
            text.append(self.fields[i].1.as_str());
            i = i + 1;
            assert(text@ == self.outcome@ + fields_written(fields, i as int));
        }
        text
    }

    /// The whole line: its level and its message.
    pub fn text(&self) -> (text: String)
        ensures
            text@ == (match self.level {
                Level::Debug => "DEBUG "@,
                Level::Info => " INFO "@,
                Level::Warn => " WARN "@,
            }) + self.outcome@ + fields_written(
                line_fields(self.fields@),
                self.fields@.len() as int,
            ),
    {
        let mut text = match self.level {
            Level::Debug => "DEBUG ".to_string(),
            Level::Info => " INFO ".to_string(),
            Level::Warn => " WARN ".to_string(),
        };
        let ghost level = text@;
        let message = self.message();
        text.append(message.as_str());
        assert(text@ == level + self.outcome@ + fields_written(
            line_fields(self.fields@),
            self.fields@.len() as int,
        ));
        text
    }
}

/// The fields of a line never shift: every line has the same field names in the same order,
/// whatever the upstream reported.
pub proof fn log_fields_never_shift(
    one: RequestLog,
    other: RequestLog,
    elapsed: (u64, u64),
    bytes: (u64, u64),
    aborted: (bool, bool),
    i: int,
)
    requires
        0 <= i < log_fields(one, elapsed.0, bytes.0, aborted.0).len(),
    ensures
        log_fields(one, elapsed.0, bytes.0, aborted.0).len() == log_fields(
            other,
            elapsed.1,
            bytes.1,
            aborted.1,
        ).len(),
        log_fields(one, elapsed.0, bytes.0, aborted.0)[i].0 == log_fields(
            other,
            elapsed.1,
            bytes.1,
            aborted.1,
        )[i].0,
{
}

/// Counts the bytes of a response body that are handed to the client, and tells the total when
/// the response finished or the client went away.
pub struct MeteredBody {
    /// Exact size when the body announces one. Needed because a sized body is not polled any
    /// more once that many bytes were written, so its end is never seen.
    expected: Option<u64>,
    bytes: u64,
    finished: bool,
    observer: Option<UsageObserver>,
}

/// What a [`MeteredBody`] has seen.
pub ghost struct Metered {
    pub expected: Option<u64>,
    pub bytes: u64,
    pub finished: bool,
    pub observer: Option<UsageObserver>,
}

impl View for MeteredBody {
    type V = Metered;

    closed spec fn view(&self) -> Metered {
        Metered {
            expected: self.expected,
            bytes: self.bytes,
            finished: self.finished,
            observer: self.observer,
        }
    }
}

impl Metered {
    /// The whole body was handed to the client: either the end of the stream was polled, or
    /// every announced byte was written.
    pub open spec fn complete(self) -> bool {
        self.finished || self.expected == Some(self.bytes)
    }

    /// The client went away before the whole body was handed to it.
    pub open spec fn aborted(self) -> bool {
        !self.complete()
    }
}

impl MeteredBody {
    pub fn new(expected: Option<u64>) -> (body: Self)
        ensures
            body@ == (Metered { expected, bytes: 0, finished: false, observer: None }),
    {
        MeteredBody { expected, bytes: 0, finished: false, observer: None }
    }

    /// Lets `observer` see every frame.
    pub fn with_observer(self, observer: UsageObserver) -> (body: Self)
        ensures
            body@ == (Metered { observer: Some(observer), ..self@ }),
    {
        MeteredBody {
            expected: self.expected,
            bytes: self.bytes,
            finished: self.finished,
            observer: Some(observer),
        }
    }

    /// Notes a frame of data on its way to the client.
    pub fn on_frame(&mut self, data: &[u8])
        ensures
            frame_noted(old(self)@, final(self)@, data@),
    {
        self.bytes = self.bytes.wrapping_add(data.len() as u64);
        match &mut self.observer {
            Some(observer) => {
                observer.observe(data);
            },
            None => {},
        }
    }

    /// Notes the end of the stream.
    pub fn on_end(&mut self)
        ensures
            final(self)@ == (Metered { finished: true, ..old(self)@ }),
    {
        self.finished = true;
    }

    /// Whether the whole body was handed to the client.
    pub fn is_complete(&self) -> (r: bool)
        ensures
            r == self@.complete(),
    {
        self.finished || match self.expected {
            Some(expected) => expected == self.bytes,
            None => false,
        }
    }

    /// Bytes forwarded to the client so far.
    pub fn bytes(&self) -> (bytes: u64)
        ensures
            bytes == self@.bytes,
    {
        self.bytes
    }

    /// Whether the end of the stream was seen.
    pub fn is_finished(&self) -> (r: bool)
        ensures
            r == self@.finished,
    {
        self.finished
    }

    /// The bytes that were sent, and whether the response was aborted.
    pub fn report(&self) -> (r: (u64, bool))
        ensures
            r.0 == self@.bytes,
            r.1 == self@.aborted(),
    {
        (self.bytes, !self.is_complete())
    }

    /// The token counters that the observer has seen.
    pub fn usage(&self) -> (usage: Option<TokenUsage>)
        ensures
            usage == (match self@.observer {
                Some(observer) => observer.counters(),
                None => None,
            }),
    {
        match &self.observer {
            Some(observer) => observer.sink(),
            None => None,
        }
    }
}

/// The number of bytes in `frames`.
pub open spec fn total_bytes(frames: Seq<Seq<u8>>) -> nat
    decreases frames.len(),
{
    if frames.len() == 0 {
        0
    } else {
        total_bytes(frames.drop_last()) + frames.last().len()
    }
}

/// Whether a meter that has seen `before` can have seen `after` once `data` went to the client.
pub open spec fn frame_noted(before: Metered, after: Metered, data: Seq<u8>) -> bool {
    &&& after.expected == before.expected
    &&& after.finished == before.finished
    &&& after.bytes == counters_sum(before.bytes, data.len() as u64)
    &&& match (before.observer, after.observer) {
        (Some(was), Some(now)) => (now.pending(), now.counters()) == scanned(
            was.pending(),
            was.counters(),
            data,
        ),
        (None, None) => true,
        _ => false,
    }
}

/// Whether a meter went through `states` while `frames` went to the client, one after the other.
pub open spec fn frames_noted(states: Seq<Metered>, frames: Seq<Seq<u8>>) -> bool {
    &&& states.len() == frames.len() + 1
    &&& forall|i: int|
        #![trigger frames[i]]
        0 <= i < frames.len() ==> frame_noted(states[i], states[i + 1], frames[i])
}

/// Every byte is counted: a meter that starts with a body of the announced size `expected`, and
/// sees all of `frames` and then perhaps the end of the stream, reports the sum of their lengths,
/// and reports the response as aborted exactly when neither the end was seen nor every announced
/// byte was sent.
pub proof fn every_byte_is_counted(
    expected: Option<u64>,
    observer: Option<UsageObserver>,
    states: Seq<Metered>,
    frames: Seq<Seq<u8>>,
    ended: bool,
)
    requires
        total_bytes(frames) <= u64::MAX,
        frames_noted(states, frames),
        states[0] == (Metered { expected, bytes: 0, finished: false, observer }),
    ensures
        ({
            let seen = states.last();
            let now = if ended {
                Metered { finished: true, ..seen }
            } else {
                seen
            };
            &&& now.bytes == total_bytes(frames)
            &&& now.aborted() == !(ended || expected == Some(total_bytes(frames) as u64))
        }),
{
    frames_are_counted(states, frames);
}

proof fn frames_are_counted(states: Seq<Metered>, frames: Seq<Seq<u8>>)
    requires
        total_bytes(frames) <= u64::MAX,
        frames_noted(states, frames),
        states[0].bytes == 0,
    ensures
        states.last().bytes == total_bytes(frames),
        states.last().expected == states[0].expected,
        states.last().finished == states[0].finished,
    decreases frames.len(),
{
    if frames.len() > 0 {
        let others = frames.drop_last();
        let earlier = states.drop_last();
        assert forall|i: int|
            #![trigger others[i]]
            0 <= i < others.len() implies frame_noted(earlier[i], earlier[i + 1], others[i]) by {
            assert(others[i] == frames[i]);
        }
        frames_are_counted(earlier, others);
        assert(frames.last() == frames[frames.len() - 1]);
        assert(frame_noted(states[frames.len() - 1], states[frames.len() as int], frames.last()));
    }
}

/// Every line tells of its request what the record holds, each under its own name, and `-` where
/// there is nothing to tell.
pub proof fn line_tells_what_the_record_holds(
    log: RequestLog,
    elapsed_ms: u64,
    response_bytes: u64,
    aborted: bool,
)
    ensures
        ({
            let fields = log_fields(log, elapsed_ms, response_bytes, aborted);
            &&& fields.len() == 21
            &&& fields[0] == ("request_id"@, log.request_id@)
            &&& fields[1] == ("caller"@, match log.caller {
                Some(text) => text@,
                None => "-"@,
            })
            &&& fields[2] == ("model"@, match log.model {
                Some(text) => text@,
                None => "-"@,
            })
            &&& fields[3] == ("upstream"@, match log.upstream {
                Some(text) => text@,
                None => "-"@,
            })
            &&& fields[4] == ("status"@, digits(log.status.0 as nat))
            &&& fields[5] == ("elapsed_ms"@, digits(elapsed_ms as nat))
            &&& fields[6] == ("request_bytes"@, digits(log.request_bytes as nat))
            &&& fields[7] == ("response_bytes"@, digits(response_bytes as nat))
            &&& fields[8] == ("stream"@, if log.streaming { "true"@ } else { "false"@ })
            &&& fields[9] == ("aborted"@, if aborted { "true"@ } else { "false"@ })
            &&& fields[10] == ("effort"@, match log.effort {
                Some(text) => text@,
                None => "-"@,
            })
            &&& fields[11] == ("max_tokens"@, match log.max_tokens {
                Some(count) => digits(count as nat),
                None => "-"@,
            })
            &&& fields[12] == ("requested_choices"@, match log.requested_choices {
                Some(count) => digits(count as nat),
                None => "-"@,
            })
            &&& fields[13] == ("prompt_tokens"@, match log.usage {
                Some(usage) if usage.prompt_tokens is Some => digits(usage.prompt_tokens.unwrap() as nat),
                _ => "-"@,
            })
            &&& fields[14] == ("completion_tokens"@, match log.usage {
                Some(usage) if usage.completion_tokens is Some => digits(usage.completion_tokens.unwrap() as nat),
                _ => "-"@,
            })
            &&& fields[15] == ("total_tokens"@, match log.usage {
                Some(usage) if usage.total_tokens is Some => digits(usage.total_tokens.unwrap() as nat),
                _ => "-"@,
            })
            &&& fields[16] == ("reasoning_tokens"@, match log.usage {
                Some(usage) if usage.reasoning_tokens is Some => digits(usage.reasoning_tokens.unwrap() as nat),
                _ => "-"@,
            })
            &&& fields[17] == ("cached_tokens"@, match log.usage {
                Some(usage) if usage.cached_tokens is Some => digits(usage.cached_tokens.unwrap() as nat),
                _ => "-"@,
            })
            &&& fields[18] == ("method"@, log.method@)
            &&& fields[19] == ("path"@, log.path@)
            &&& fields[20] == ("error"@, match log.error {
                Some(text) => text@,
                None => "-"@,
            })
        }),
{
}

/// A request failed when the gateway has an error to tell or the status is 400 or above and below
/// 600; an error is told before anything else, then that the client went away.
pub proof fn failures_are_told(log: RequestLog, aborted: bool)
    ensures
        failed(log) <==> log.error is Some || 400 <= log.status.0 < 600,
        log.error is Some ==> outcome_of(log, aborted) == "request failed"@,
        log.error is None && aborted ==> outcome_of(log, aborted) == "request aborted"@,
        log.error is None && !aborted ==> outcome_of(log, aborted) == "request completed"@,
{
}

/// The fields of a line are written one behind the other, each with a space in front and an equals
/// sign behind its name.
pub proof fn fields_are_written_in_order(
    fields: Seq<(Seq<char>, Seq<char>)>,
    name: Seq<char>,
    value: Seq<char>,
)
    ensures
        fields_written(fields, 0) == Seq::<char>::empty(),
        fields_written(fields.push((name, value)), fields.len() as int + 1) == fields_written(
            fields,
            fields.len() as int,
        ) + seq![' '] + name + seq!['='] + value,
{
    let all = fields.push((name, value));
    reveal_strlit(" ");
    reveal_strlit("=");
    assert(" "@ =~= seq![' ']);
    assert("="@ =~= seq!['=']);
    fields_written_alike(fields, all, fields.len() as int);
}

proof fn fields_written_alike(
    one: Seq<(Seq<char>, Seq<char>)>,
    other: Seq<(Seq<char>, Seq<char>)>,
    n: int,
)
    requires
        0 <= n <= one.len() <= other.len(),
        forall|i: int| 0 <= i < n ==> #[trigger] one[i] == other[i],
    ensures
        fields_written(one, n) == fields_written(other, n),
    decreases n,
{
    if n > 0 {
        fields_written_alike(one, other, n - 1);
        assert(one[n - 1] == other[n - 1]);
    }
}

/// A request ID that the caller supplies is kept, character for character, whatever white space
/// stands around it, when it has at most 128 characters and no tab in it; any other is not.
pub proof fn supplied_request_id_is_kept(
    fields: Map<Seq<char>, Seq<Seq<u8>>>,
    left: Seq<char>,
    id: Seq<char>,
    right: Seq<char>,
)
    requires
        fields.dom().contains("x-request-id"@),
        fields["x-request-id"@].len() > 0,
        fields["x-request-id"@][0] == encode_utf8(left + id + right),
        forall|i: int| 0 <= i < left.len() ==> #[trigger] left[i] == ' ' || left[i] == '\t',
        forall|i: int| 0 <= i < right.len() ==> #[trigger] right[i] == ' ' || right[i] == '\t',
        forall|i: int|
            0 <= i < id.len() ==> ' ' <= #[trigger] id[i] <= '~' || id[i] == '\t',
        id.len() > 0,
        '!' <= id[0] <= '~',
        '!' <= id.last() <= '~',
    ensures
        supplied_id(fields) == (if id.len() <= 128 && forall|i: int|
            0 <= i < id.len() ==> #[trigger] id[i] != '\t' {
            Some(id)
        } else {
            None
        }),
{
    padded_value_is_trimmed(fields, "x-request-id"@, left, id, right);
    if id.len() <= 128 && forall|i: int| 0 <= i < id.len() ==> #[trigger] id[i] != '\t' {
        assert(usable_id(id));
    } else if id.len() <= 128 {
        let i = choose|i: int| 0 <= i < id.len() && #[trigger] id[i] == '\t';
        assert(!(' ' <= id[i]));
    }
}

/// A caller that sends no request ID supplies none.
pub proof fn missing_request_id_is_not_supplied(fields: Map<Seq<char>, Seq<Seq<u8>>>)
    requires
        !fields.dom().contains("x-request-id"@),
    ensures
        supplied_id(fields) is None,
{
}

/// A usable request ID has from one to 128 characters, all of them visible ASCII or spaces.
pub proof fn usable_ids_are_short_and_visible(id: Seq<char>)
    ensures
        usable_id(id) <==> 1 <= id.len() <= 128 && forall|i: int|
            0 <= i < id.len() ==> #[trigger] id[i] >= ' ' && id[i] <= '~',
{
}

/// What has the shape of a UUID v4 has 36 characters: four dashes, the digit of its version, the
/// mark of its variant, and hexadecimal digits in lower case everywhere else.
pub proof fn uuids_have_their_marks(id: Seq<char>)
    requires
        uuid_shaped(id),
    ensures
        id.len() == 36,
        id[8] == '-' && id[13] == '-' && id[18] == '-' && id[23] == '-',
        id[14] == '4',
        id[19] == '8' || id[19] == '9' || id[19] == 'a' || id[19] == 'b',
        forall|i: int|
            0 <= i < 36 && i != 8 && i != 13 && i != 18 && i != 23 ==> '0' <= #[trigger] id[i] <= '9'
                || 'a' <= id[i] <= 'f',
{
}

/// An identifier spells its bytes in hexadecimal, in order: all sixteen as they are, but for the
/// four bits of the version and the two of the variant.
pub proof fn uuid_spells_its_bytes(bytes: Seq<u8>, n: int)
    requires
        bytes.len() == 16,
        0 <= n < 16,
    ensures
        ({
            let at = 2 * n + (if n < 4 {
                0int
            } else if n < 6 {
                1
            } else if n < 8 {
                2
            } else if n < 10 {
                3
            } else {
                4
            });
            let byte = if n == 6 {
                bytes[n] as int % 16 + 64
            } else if n == 8 {
                bytes[n] as int % 64 + 128
            } else {
                bytes[n] as int
            };
            &&& uuid_text(bytes)[at] == "0123456789abcdef"@[byte / 16]
            &&& uuid_text(bytes)[at + 1] == "0123456789abcdef"@[byte % 16]
        }),
{
    reveal_strlit("0123456789abcdef");
    let all = marked(bytes);
    uuid_prefix_spells(all, 16, n);
    hex_is_spelt(all[n] as int / 16);
    hex_is_spelt(all[n] as int % 16);
}

/// A hexadecimal digit is one of sixteen.
proof fn hex_is_spelt(n: int)
    requires
        0 <= n < 16,
    ensures
        hex(n) == "0123456789abcdef"@[n],
{
    reveal_strlit("0123456789abcdef");
}

proof fn uuid_prefix_spells(bytes: Seq<u8>, n: int, k: int)
    requires
        0 <= k < n <= 16,
        bytes.len() == 16,
    ensures
        ({
            let at = 2 * k + (if k < 4 {
                0int
            } else if k < 6 {
                1
            } else if k < 8 {
                2
            } else if k < 10 {
                3
            } else {
                4
            });
            &&& at + 1 < uuid_prefix(bytes, n).len()
            &&& uuid_prefix(bytes, n)[at] == hex(bytes[k] as int / 16)
            &&& uuid_prefix(bytes, n)[at + 1] == hex(bytes[k] as int % 16)
        }),
    decreases n,
{
    uuid_prefix_shape(bytes, n - 1);
    uuid_prefix_shape(bytes, n);
    if k < n - 1 {
        uuid_prefix_spells(bytes, n - 1, k);
    }
}

/// A response is aborted exactly when its end was not seen and not every announced byte was sent.
pub proof fn unfinished_responses_are_aborted(body: Metered)
    ensures
        body.aborted() <==> !body.finished && (body.expected is None || body.expected.unwrap()
            != body.bytes),
{
}

/// Every frame is observed: an observer that a response passes has seen all of its frames, one after
/// the other.
pub proof fn every_frame_is_observed(states: Seq<Metered>, frames: Seq<Seq<u8>>)
    requires
        frames_noted(states, frames),
        states[0].observer is Some,
    ensures
        states.last().observer matches Some(now) && (now.pending(), now.counters()) == scanned_all(
            states[0].observer.unwrap().pending(),
            states[0].observer.unwrap().counters(),
            frames,
        ),
    decreases frames.len(),
{
    if frames.len() > 0 {
        let others = frames.drop_last();
        let earlier = states.drop_last();
        assert forall|i: int|
            #![trigger others[i]]
            0 <= i < others.len() implies frame_noted(earlier[i], earlier[i + 1], others[i]) by {
            assert(others[i] == frames[i]);
        }
        every_frame_is_observed(earlier, others);
        assert(frames.last() == frames[frames.len() - 1]);
        assert(frame_noted(states[frames.len() - 1], states[frames.len() as int], frames.last()));
    }
}

/// A request ID of spaces and tabs alone, and one that is not text, is not supplied either.
pub proof fn blank_request_id_is_not_supplied(
    fields: Map<Seq<char>, Seq<Seq<u8>>>,
    blank: Seq<char>,
)
    requires
        fields.dom().contains("x-request-id"@),
        fields["x-request-id"@].len() > 0,
        forall|i: int| 0 <= i < blank.len() ==> #[trigger] blank[i] == ' ' || blank[i] == '\t',
        fields["x-request-id"@][0] == encode_utf8(blank) || exists|i: int|
            #![trigger fields["x-request-id"@][0][i]]
            0 <= i < fields["x-request-id"@][0].len() && fields["x-request-id"@][0][i] > 126,
    ensures
        supplied_id(fields) is None,
{
    if fields["x-request-id"@][0] == encode_utf8(blank) {
        assert forall|i: int| 0 <= i < blank.len() implies ' ' <= #[trigger] blank[i] <= '~'
            || blank[i] == '\t' by {}
        first_value_is_read_as_written(fields, "x-request-id"@, blank);
        trimming_leaves_nothing_of_white_space(blank);
    } else {
        other_values_are_not_text(fields, "x-request-id"@);
    }
}

} // verus!
