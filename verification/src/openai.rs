//! The OpenAI module's request pipeline: read the configuration, scan and
//! redact the request body, authorise with the API key, forward.
//!
//! The reading, scanning, and forwarding happen at the caller; this module
//! decides what comes next from what each of them reported.
use vstd::prelude::*;
use vstd::utf8::*;
use crate::config::{AppConfig, copy_rules};
use crate::error::{AppError, AppErrorView, concat_str, hex_digit};
use crate::scanner::PIIScanner;

verus! {

#[verifier::external_type_specification]
#[verifier::external_body]
pub struct ExHeaderValue(hyper::header::HeaderValue);

#[verifier::external_type_specification]
#[verifier::external_body]
pub struct ExInvalidHeaderValue(hyper::header::InvalidHeaderValue);

/// A byte that an HTTP header value may hold: visible ASCII, space, tab,
/// and any byte from 0x80 up (everything from 32 but DEL, and tab).
pub open spec fn header_value_byte(b: u8) -> bool {
    (b >= 32 && b != 127) || b == 9
}

/// Whether every byte of the text's encoding may stand in a header value.
pub open spec fn valid_header_value(text: Seq<char>) -> bool {
    forall|i: int| 0 <= i < encode_utf8(text).len() ==> header_value_byte(#[trigger] encode_utf8(text)[i])
}

/// A header value, kept beside the text it was made from.
pub struct HeaderText {
    text: String,
    value: hyper::header::HeaderValue,
}

impl View for HeaderText {
    type V = Seq<char>;

    /// The text the header value was made from.
    closed spec fn view(&self) -> Seq<char> {
        self.text@
    }
}

impl HeaderText {
    /// The text the header value was made from.
    pub fn text(&self) -> (t: &str)
        ensures
            t@ == self@,
    {
        self.text.as_str()
    }

    /// The header value.
    pub fn into_value(self) -> hyper::header::HeaderValue {
        self.value
    }
}

/// `http::HeaderValue::from_str`, keeping the text beside the value: the
/// contract restates http's `try_from_generic` with its `is_valid` byte test.
#[verifier::external_body]
fn parse_header_value(text: &str) -> (r: Result<HeaderText, hyper::header::InvalidHeaderValue>)
    ensures
        r is Ok <==> valid_header_value(text@),
        r matches Ok(h) ==> h@ == text@,
{
    match hyper::header::HeaderValue::from_str(text) {
        Ok(value) => Ok(HeaderText { text: text.to_owned(), value }),
        Err(e) => Err(e),
    }
}

/// The decimal digits of `n`.
pub open spec fn decimal_text(n: nat) -> Seq<char>
    decreases n,
{
    if n < 10 {
        seq![hex_digit(n as u32)]
    } else {
        decimal_text(n / 10) + seq![hex_digit((n % 10) as u32)]
    }
}

/// `impl From<usize> for http::HeaderValue`, keeping the text beside the
/// value. The contract claims that the value holds `n` in decimal, as http
/// writes it with `itoa`, and as `usize::to_string` writes the kept text.
#[verifier::external_body]
pub(crate) fn decimal_header_value(n: usize) -> (h: HeaderText)
    ensures
        h@ == decimal_text(n as nat),
{
    HeaderText { text: n.to_string(), value: hyper::header::HeaderValue::from(n) }
}

/// `Display` of `http::header::InvalidHeaderValue`, which writes a fixed
/// text.
#[verifier::external_body]
fn invalid_header_value_text(e: &hyper::header::InvalidHeaderValue) -> (t: String)
    ensures
        t@ == "failed to parse header value"@,
{
    e.to_string()
}

/// The `Authorization` header value for an API key.
pub open spec fn bearer(api_key: Seq<char>) -> Seq<char> {
    "Bearer "@ + api_key
}

/// The `Authorization` value for any key is the scheme `Bearer`, one space,
/// and the key itself, whatever the key looks like: seven characters longer
/// than the key, starting with `"Bearer "` and ending with the key.
pub proof fn lemma_bearer_wraps_any_key(api_key: Seq<char>)
    ensures
        bearer(api_key) == "Bearer "@ + api_key,
        bearer(api_key).len() == api_key.len() + 7,
        bearer(api_key).subrange(0, 7) == "Bearer "@,
        bearer(api_key).skip(7) == api_key,
{
    reveal_strlit("Bearer ");
    assert(bearer(api_key).subrange(0, 7) =~= "Bearer "@);
    assert(bearer(api_key).skip(7) =~= api_key);
}

/// Where a request stands in the module's pipeline.
pub enum ForwardStage {
    /// The configuration has not been read yet.
    AwaitingConfig,
    /// The request body is being scanned and redacted.
    AwaitingScan { endpoint: String, api_key: String },
    /// The request has been sent on.
    AwaitingForward,
    /// The outcome is known.
    Finished,
}

/// What the caller reports back.
pub enum ForwardEvent {
    /// A snapshot of the configuration, or the text of the lock error.
    ConfigRead(Result<AppConfig, String>),
    /// The body scan finished, or failed with this text.
    ScanDone(Result<(), String>),
    /// The upstream exchange finished.
    ForwardDone(Result<(), AppError>),
}

/// What the caller does next.
pub enum ForwardAction {
    /// Scan and redact the request body with this scanner.
    ScanBody(PIIScanner),
    /// Set this `Authorization` header and forward the request to the endpoint.
    Forward { endpoint: String, authorization: HeaderText },
    /// Answer with the upstream response.
    ReturnResponse,
    /// Fail the request with this error.
    Fail(AppError),
}

/// Whether an event is the one a stage waits for.
pub open spec fn forward_event_fits(stage: ForwardStage, event: ForwardEvent) -> bool {
    match (stage, event) {
        (ForwardStage::AwaitingConfig, ForwardEvent::ConfigRead(_)) => true,
        (ForwardStage::AwaitingScan { .. }, ForwardEvent::ScanDone(_)) => true,
        (ForwardStage::AwaitingForward, ForwardEvent::ForwardDone(_)) => true,
        _ => false,
    }
}

/// How far along the module's pipeline a stage is.
pub open spec fn forward_rank(stage: ForwardStage) -> int {
    match stage {
        ForwardStage::AwaitingConfig => 0,
        ForwardStage::AwaitingScan { .. } => 1,
        ForwardStage::AwaitingForward => 2,
        ForwardStage::Finished => 3,
    }
}

/// Whether an action ends the module's work on the request.
pub open spec fn concludes(action: ForwardAction) -> bool {
    action is ReturnResponse || action is Fail
}

/// The module that forwards requests to OpenAI.
pub struct OpenAIModule;

impl OpenAIModule {
    /// The `Authorization` header for the API key: `Bearer <key>`, or the
    /// configuration error `Invalid API key format: ..` where the key makes
    /// no valid header value.
    pub fn authorization(api_key: &str) -> (r: Result<HeaderText, AppError>)
        ensures
            r is Ok <==> valid_header_value(bearer(api_key@)),
            r matches Ok(h) ==> h@ == bearer(api_key@),
            r matches Ok(h) ==> h@ == "Bearer "@ + api_key@,
            r matches Err(e) ==> e@ == AppErrorView::Config(
                "Invalid API key format: failed to parse header value"@,
            ),
    {
        let value = concat_str("Bearer ", api_key);
        match parse_header_value(value.as_str()) {
            Ok(v) => Ok(v),
            Err(e) => {
                let detail = invalid_header_value_text(&e);
                let m = concat_str("Invalid API key format: ", detail.as_str());
                proof {
                    reveal_strlit("Invalid API key format: ");
                    reveal_strlit("failed to parse header value");
                    reveal_strlit("Invalid API key format: failed to parse header value");
                    assert(m@ =~= "Invalid API key format: failed to parse header value"@);
                }
                Err(AppError::Config(m))
            },
        }
    }

    /// The pipeline's next move. A configuration that cannot be read fails
    /// the request with `Config lock error: ..`; otherwise the body is
    /// scanned with the configured rules. A failed scan fails it with
    /// `PII Scanning failed: ..`; otherwise the request is authorised with
    /// the destination's API key and forwarded to its endpoint. The upstream
    /// outcome is the request's outcome.
    pub fn on_request_step(&self, stage: ForwardStage, event: ForwardEvent) -> (r: (ForwardStage, ForwardAction))
        requires
            forward_event_fits(stage, event),
        ensures
            forward_rank(r.0) > forward_rank(stage),
            r.0 is Finished <==> concludes(r.1),
            match (stage, event) {
                (ForwardStage::AwaitingConfig, ForwardEvent::ConfigRead(Err(detail))) => {
                    &&& r.0 is Finished
                    &&& r.1 matches ForwardAction::Fail(e) && e@ == AppErrorView::Internal(
                        "Config lock error: "@ + detail@,
                    )
                },
                (ForwardStage::AwaitingConfig, ForwardEvent::ConfigRead(Ok(cfg))) => {
                    &&& r.0 matches ForwardStage::AwaitingScan { endpoint, api_key } && endpoint@
                        == cfg@.destination.endpoint && api_key@ == cfg@.destination.api_key
                    &&& r.1 matches ForwardAction::ScanBody(s) && s.rule_views() == cfg@.rules
                },
                (ForwardStage::AwaitingScan { .. }, ForwardEvent::ScanDone(Err(detail))) => {
                    &&& r.0 is Finished
                    &&& r.1 matches ForwardAction::Fail(e) && e@ == AppErrorView::Parsing(
                        "PII Scanning failed: "@ + detail@,
                    )
                },
                (ForwardStage::AwaitingScan { endpoint, api_key }, ForwardEvent::ScanDone(Ok(()))) => {
                    if valid_header_value(bearer(api_key@)) {
                        &&& r.0 is AwaitingForward
                        &&& r.1 matches ForwardAction::Forward { endpoint: target, authorization }
                            && target@ == endpoint@ && authorization@ == bearer(api_key@)
                            && authorization@ == "Bearer "@ + api_key@
                    } else {
                        &&& r.0 is Finished
                        &&& r.1 matches ForwardAction::Fail(e) && e@ == AppErrorView::Config(
                            "Invalid API key format: failed to parse header value"@,
                        )
                    }
                },
                (ForwardStage::AwaitingForward, ForwardEvent::ForwardDone(Ok(()))) => {
                    r.0 is Finished && r.1 is ReturnResponse
                },
                (ForwardStage::AwaitingForward, ForwardEvent::ForwardDone(Err(err))) => {
                    &&& r.0 is Finished
                    &&& r.1 matches ForwardAction::Fail(e) && e@ == err@
                },
                _ => false,
            },
    {
        match event {
            ForwardEvent::ConfigRead(Err(detail)) => (
                ForwardStage::Finished,
                ForwardAction::Fail(AppError::Internal(concat_str("Config lock error: ", detail.as_str()))),
            ),
            ForwardEvent::ConfigRead(Ok(cfg)) => {
                let scanner = PIIScanner::new(copy_rules(&cfg.rules));
                (
                    ForwardStage::AwaitingScan {
                        endpoint: cfg.destination.endpoint.clone(),
                        api_key: cfg.destination.api_key.clone(),
                    },
                    ForwardAction::ScanBody(scanner),
                )
            },
            ForwardEvent::ScanDone(Err(detail)) => (
                ForwardStage::Finished,
                ForwardAction::Fail(AppError::Parsing(concat_str("PII Scanning failed: ", detail.as_str()))),
            ),
            ForwardEvent::ScanDone(Ok(())) => match stage {
                ForwardStage::AwaitingScan { endpoint, api_key } => match Self::authorization(api_key.as_str()) {
                    Ok(authorization) => (
                        ForwardStage::AwaitingForward,
                        ForwardAction::Forward { endpoint, authorization },
                    ),
                    Err(e) => (ForwardStage::Finished, ForwardAction::Fail(e)),
                },
                _ => (ForwardStage::Finished, ForwardAction::ReturnResponse),
            },
            ForwardEvent::ForwardDone(Ok(())) => (ForwardStage::Finished, ForwardAction::ReturnResponse),
            ForwardEvent::ForwardDone(Err(e)) => (ForwardStage::Finished, ForwardAction::Fail(e)),
        }
    }
}

} // verus!
