//! Where a feed connects to, and what it says when that fails.

use vstd::prelude::*;
use vstd::utf8::*;

use crate::text::{
    concat, decimal, has_prefix, is_white_space, str_view, string_view, texts, trim, trimmed,
    white_space_around_a_text_is_trimmed,
};

verus! {

/// The port of a URL that names none and whose scheme has none.
pub const DEFAULT_PORT: u16 = 443;

/// The parts of a URL.
#[derive(Debug)]
pub struct UrlParts {
    pub host: Option<String>,
    /// the port in the URL, or the usual port of its scheme
    pub port: Option<u16>,
    /// what stands between the slashes of the path
    pub segments: Option<Vec<String>>,
}

/// The parts of a URL.
pub struct UrlView {
    pub host: Option<Seq<char>>,
    pub port: Option<u16>,
    pub segments: Option<Seq<Seq<char>>>,
}

impl View for UrlParts {
    type V = UrlView;

    open spec fn view(&self) -> UrlView {
        UrlView {
            host: string_view(self.host),
            port: self.port,
            segments: match self.segments {
                Some(s) => Some(texts(s@)),
                None => None,
            },
        }
    }
}

/// The parts of a URL, or the fault in it.
pub open spec fn parts_view(parsed: Result<UrlParts, String>) -> Result<UrlView, Seq<char>> {
    match parsed {
        Ok(parts) => Ok(parts@),
        Err(e) => Err(e@),
    }
}

/// What `url::Url::parse` makes of a text: host, port and path segments of the URL, or
/// the words of the parse error.
pub uninterp spec fn parsed_url(raw: Seq<char>) -> Result<UrlView, Seq<char>>;

/// Calls `url::Url::parse` and reads `host_str`, `port_or_known_default` and
/// `path_segments` off the URL. The result is a function of the text alone; what that
/// function is, the URL standard says.
#[verifier::external_body]
pub(crate) fn parse_url(raw: &str) -> (parsed: Result<UrlParts, String>)
    ensures
        parts_view(parsed) == parsed_url(raw@),
{
    match url::Url::parse(raw) {
        Ok(url) => Ok(
            UrlParts {
                host: url.host_str().map(str::to_string),
                port: url.port_or_known_default(),
                segments: url.path_segments().map(|parts| parts.map(str::to_string).collect()),
            },
        ),
        Err(e) => Err(e.to_string()),
    }
}

/// A host and a port.
#[derive(Debug, PartialEq, Eq)]
pub struct Target {
    pub host: String,
    pub port: u16,
}

/// Where a URL leads, or why it leads nowhere.
pub open spec fn target(parsed: Result<UrlView, Seq<char>>) -> Result<
    (Seq<char>, u16),
    Seq<char>,
> {
    match parsed {
        Err(e) => Err("bad url: "@ + e),
        Ok(parts) => match parts.host {
            None => Err("url has no host"@),
            Some(host) => Ok(
                (
                    host,
                    match parts.port {
                        Some(port) => port,
                        None => DEFAULT_PORT,
                    },
                ),
            ),
        },
    }
}

/// A target, or why there is none.
pub open spec fn target_view(t: Result<Target, String>) -> Result<(Seq<char>, u16), Seq<char>> {
    match t {
        Ok(t) => Ok((t.host@, t.port)),
        Err(e) => Err(e@),
    }
}

/// Where a parsed URL leads, or why it leads nowhere.
pub fn target_of_parts(parsed: Result<UrlParts, String>) -> (t: Result<Target, String>)
    ensures
        target_view(t) == target(parts_view(parsed)),
{
    match parsed {
        Err(e) => Err(fault(Stage::Url, e.as_str())),
        Ok(parts) => match parts.host {
            None => Err(String::from_str("url has no host")),
            Some(host) => {
                let port: u16 = match parts.port {
                    Some(port) => port,
                    None => DEFAULT_PORT,
                };
                Ok(Target { host, port })
            },
        },
    }
}

/// Where a URL leads, or why it leads nowhere.
pub fn target_of(url: &str) -> (t: Result<Target, String>)
    ensures
        target_view(t) == target(parsed_url(url@)),
{
    target_of_parts(parse_url(url))
}

/// What a feed was about when it failed.
#[derive(Clone, Copy, Debug, PartialEq, Eq, Structural)]
pub enum Stage {
    Url,
    Dns,
    Request,
    Token,
    Handshake,
    Subscribe,
    Ping,
    Endpoint,
    Tls,
    Connect,
    Metadata,
    Start,
    Stream,
}

/// How the report of a fault starts.
pub open spec fn stage_text(stage: Stage) -> Seq<char> {
    match stage {
        Stage::Url => "bad url: "@,
        Stage::Dns => "dns resolution failed: "@,
        Stage::Request => "bad websocket request: "@,
        Stage::Token => "bad x-token header: "@,
        Stage::Handshake => "ws handshake failed: "@,
        Stage::Subscribe => "subscribe send failed: "@,
        Stage::Ping => "ping send failed: "@,
        Stage::Endpoint => "bad endpoint: "@,
        Stage::Tls => "tls config failed: "@,
        Stage::Connect => "connect failed: "@,
        Stage::Metadata => "bad x-token metadata: "@,
        Stage::Start => "stream start failed: "@,
        Stage::Stream => "stream error: "@,
    }
}

/// The report of a fault.
pub fn fault(stage: Stage, cause: &str) -> (report: String)
    ensures
        report@ == stage_text(stage) + cause@,
{
    let start = match stage {
        Stage::Url => "bad url: ",
        Stage::Dns => "dns resolution failed: ",
        Stage::Request => "bad websocket request: ",
        Stage::Token => "bad x-token header: ",
        Stage::Handshake => "ws handshake failed: ",
        Stage::Subscribe => "subscribe send failed: ",
        Stage::Ping => "ping send failed: ",
        Stage::Endpoint => "bad endpoint: ",
        Stage::Tls => "tls config failed: ",
        Stage::Connect => "connect failed: ",
        Stage::Metadata => "bad x-token metadata: ",
        Stage::Start => "stream start failed: ",
        Stage::Stream => "stream error: ",
    };
    concat(start, cause)
}

/// An address that could not be reached, and why.
#[derive(Debug)]
pub struct Unreached {
    pub addr: String,
    pub cause: String,
}

/// Why no address could be reached, after all of `tried` failed: the fault of the last.
pub open spec fn unreached_text(tried: Seq<Unreached>) -> Seq<char> {
    if tried.len() == 0 {
        "no address resolved"@
    } else {
        "tcp connect to "@ + tried.last().addr@ + " failed: "@ + tried.last().cause@
    }
}

/// Why no address could be reached, after all of `tried` failed.
pub fn format_unreached(tried: &Vec<Unreached>) -> (report: String)
    ensures
        report@ == unreached_text(tried@),
{
    if tried.len() == 0 {
        String::from_str("no address resolved")
    } else {
        let last = &tried[tried.len() - 1];
        let mut report = String::from_str("tcp connect to ");
        report.append(last.addr.as_str());
        report.append(" failed: ");
        report.append(last.cause.as_str());
        report
    }
}

/// Why a websocket could not be opened.
#[derive(Debug)]
pub enum WsError {
    /// the server answered with an HTTP status
    Http {
        status: u16,
        body: Option<Vec<u8>>,
    },
    /// anything else, in words
    Other(String),
}

impl WsError {
    /// An HTTP status has three digits.
    pub open spec fn wf(self) -> bool {
        self matches WsError::Http { status, .. } ==> 100 <= status <= 999
    }
}

/// How `http::StatusCode` prints a status.
pub uninterp spec fn status_display(status: u16) -> Seq<char>;

/// Calls `StatusCode::from_u16` and prints the status with `Display`: the number, a
/// blank, and the usual words for it.
#[verifier::external_body]
fn status_text(status: u16) -> (text: String)
    requires
        100 <= status <= 999,
    ensures
        text@ == status_display(status),
        has_prefix(text@, decimal(status as nat) + " "@),
{
    tungstenite::http::StatusCode::from_u16(status).unwrap().to_string()
}

/// What `String::from_utf8_lossy` makes of bytes.
pub uninterp spec fn lossy_text(bytes: Seq<u8>) -> Seq<char>;

/// Calls `String::from_utf8_lossy`, which decodes UTF-8 and puts replacement characters
/// where the bytes are none.
#[verifier::external_body]
fn from_utf8_lossy(bytes: &Vec<u8>) -> (text: String)
    ensures
        text@ == lossy_text(bytes@),
        valid_utf8(bytes@) ==> text@ == decode_utf8(bytes@),
{
    String::from_utf8_lossy(bytes).into_owned()
}

/// A body as it stands behind a status: not at all where nothing is left of it without
/// the white space around it.
pub open spec fn body_text(body: Seq<char>) -> Seq<char> {
    if trimmed(body).len() == 0 {
        Seq::empty()
    } else {
        ": "@ + trimmed(body)
    }
}

/// The report of an HTTP status.
pub open spec fn http_text(status: Seq<char>, body: Option<Seq<char>>) -> Seq<char> {
    "HTTP error: "@ + status + match body {
        Some(body) => body_text(body),
        None => Seq::empty(),
    }
}

/// The report of a fault with a websocket.
pub open spec fn ws_error_text(err: WsError) -> Seq<char> {
    match err {
        WsError::Other(words) => words@,
        WsError::Http { status, body } => http_text(
            status_display(status),
            match body {
                Some(bytes) if bytes@.len() > 0 => Some(lossy_text(bytes@)),
                _ => None,
            },
        ),
    }
}

/// The report of an HTTP status, from its words and the text of the body.
pub fn format_http_error(status: &str, body: Option<&str>) -> (msg: String)
    ensures
        msg@ == http_text(status@, str_view(body)),
{
    let mut msg = concat("HTTP error: ", status);
    if let Some(body) = body {
        let body = trim(body);
        if !body.is_empty() {
            msg.append(": ");
            msg.append(body);
        }
    }
    assert(msg@ =~= http_text(status@, str_view(body)));
    msg
}

/// The report of a fault with a websocket.
pub fn format_ws_error(err: &WsError) -> (msg: String)
    requires
        err.wf(),
    ensures
        msg@ == ws_error_text(*err),
{
    match err {
        WsError::Other(words) => String::from_str(words.as_str()),
        WsError::Http { status, body } => {
            let status = status_text(*status);
            match body {
                Some(bytes) => {
                    if bytes.len() == 0 {
                        format_http_error(status.as_str(), None)
                    } else {
                        let body = from_utf8_lossy(bytes);
                        format_http_error(status.as_str(), Some(body.as_str()))
                    }
                },
                None => format_http_error(status.as_str(), None),
            }
        },
    }
}

/// A URL leads to its host, at its own port or else at 443; without a host, or with a fault
/// in it, it leads nowhere.
pub proof fn a_url_leads_to_its_host(
    host: Seq<char>,
    port: u16,
    segments: Option<Seq<Seq<char>>>,
    some_port: Option<u16>,
    cause: Seq<char>,
)
    ensures
        target(Ok(UrlView { host: Some(host), port: Some(port), segments })) == Ok::<
            (Seq<char>, u16),
            Seq<char>,
        >((host, port)),
        target(Ok(UrlView { host: Some(host), port: None, segments })) == Ok::<
            (Seq<char>, u16),
            Seq<char>,
        >((host, 443)),
        target(Ok(UrlView { host: None, port: some_port, segments })) == Err::<
            (Seq<char>, u16),
            Seq<char>,
        >("url has no host"@),
        target(Err(cause)) == Err::<(Seq<char>, u16), Seq<char>>("bad url: "@ + cause),
{
}

/// The fault of the address tried last is told, whatever came before it.
pub proof fn the_last_address_is_told(tried: Seq<Unreached>, last: Unreached)
    ensures
        unreached_text(tried.push(last)) == "tcp connect to "@ + last.addr@ + " failed: "@
            + last.cause@,
{
}

/// The body of an HTTP error is told behind its status, without the white space around it,
/// where anything else is in it.
pub proof fn the_body_is_told_without_white_space(
    status: Seq<char>,
    before: Seq<char>,
    body: Seq<char>,
    after: Seq<char>,
)
    requires
        forall|i: int| 0 <= i < before.len() ==> is_white_space(#[trigger] before[i]),
        forall|i: int| 0 <= i < after.len() ==> is_white_space(#[trigger] after[i]),
        body.len() > 0 ==> !is_white_space(body[0]) && !is_white_space(body.last()),
    ensures
        http_text(status, None) == "HTTP error: "@ + status,
        http_text(status, Some(before + body + after)) == if body.len() == 0 {
            "HTTP error: "@ + status
        } else {
            "HTTP error: "@ + status + ": "@ + body
        },
{
    white_space_around_a_text_is_trimmed(before, body, after);
    let h = "HTTP error: "@ + status;
    assert(h + Seq::<char>::empty() =~= h);
    assert(h + (": "@ + body) =~= h + ": "@ + body);
}

/// The parts of a URL and a target show what they hold.
pub proof fn parts_show_what_they_hold(
    host: String,
    port: u16,
    some_port: Option<u16>,
    segments: Vec<String>,
    cause: String,
)
    ensures
        (UrlParts { host: Some(host), port: some_port, segments: Some(segments) })@ == (UrlView {
            host: Some(host@),
            port: some_port,
            segments: Some(texts(segments@)),
        }),
        (UrlParts { host: None, port: some_port, segments: None })@ == (UrlView {
            host: None,
            port: some_port,
            segments: None,
        }),
        target_view(Ok(Target { host, port })) == Ok::<(Seq<char>, u16), Seq<char>>((host@, port)),
        target_view(Err(cause)) == Err::<(Seq<char>, u16), Seq<char>>(cause@),
{
}

/// The fault of a websocket is told in its own words, or by the HTTP status and the text of
/// the body, where there is a body.
pub proof fn the_fault_of_a_websocket_is_told(
    words: String,
    status: u16,
    bytes: Vec<u8>,
)
    ensures
        ws_error_text(WsError::Other(words)) == words@,
        ws_error_text(WsError::Http { status, body: None }) == "HTTP error: "@ + status_display(
            status,
        ),
        bytes@.len() == 0 ==> ws_error_text(WsError::Http { status, body: Some(bytes) })
            == "HTTP error: "@ + status_display(status),
        bytes@.len() > 0 ==> ws_error_text(WsError::Http { status, body: Some(bytes) })
            == "HTTP error: "@ + status_display(status) + if trimmed(lossy_text(bytes@)).len() == 0 {
            Seq::empty()
        } else {
            ": "@ + trimmed(lossy_text(bytes@))
        },
{
    let h = "HTTP error: "@ + status_display(status);
    assert(h + Seq::<char>::empty() =~= h);
}

} // verus!
