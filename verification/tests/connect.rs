use hl_md_latency_bench::calendar::{report_file_name, report_file_name_at, report_time};
use hl_md_latency_bench::connect::{
    fault, format_http_error, format_unreached, format_ws_error, target_of, target_of_parts,
    Stage, Target, Unreached, UrlParts, WsError,
};

#[test]
fn websocket_http_error_includes_response_body() {
    let body = br#"{"error":"Network mismatch. Consider adding the ChainPrism add-on to your endpoint."}"#
        .to_vec();
    let status = tungstenite::http::StatusCode::UNAUTHORIZED.as_u16();
    let err = WsError::Http {
        status,
        body: Some(body),
    };

    assert!(format_ws_error(&err).contains("401 Unauthorized"));
    assert!(format_ws_error(&err).contains("Network mismatch"));
}

#[test]
fn http_errors_in_full() {
    let http = |status: u16, body: Option<&[u8]>| {
        format_ws_error(&WsError::Http {
            status,
            body: body.map(|b| b.to_vec()),
        })
    };
    assert_eq!(http(404, None), "HTTP error: 404 Not Found");
    assert_eq!(http(404, Some(b"")), "HTTP error: 404 Not Found");
    assert_eq!(http(404, Some(b" \n ")), "HTTP error: 404 Not Found");
    assert_eq!(http(503, Some(b" busy\n")), "HTTP error: 503 Service Unavailable: busy");
    assert_eq!(
        http(799, Some(b"a\xffb")),
        "HTTP error: 799 <unknown status code>: a\u{fffd}b"
    );
    assert_eq!(
        format_ws_error(&WsError::Other("Interrupted handshake".to_string())),
        "Interrupted handshake"
    );
}

#[test]
fn http_errors_from_their_words() {
    assert_eq!(format_http_error("500 X", None), "HTTP error: 500 X");
    assert_eq!(format_http_error("500 X", Some(" ")), "HTTP error: 500 X");
    assert_eq!(
        format_http_error("500 X", Some(" y z ")),
        "HTTP error: 500 X: y z"
    );
}

#[test]
fn targets_of_urls() {
    let target = |host: &str, port: u16| {
        Ok(Target {
            host: host.to_string(),
            port,
        })
    };
    assert_eq!(
        target_of("wss://api.hyperliquid.xyz/ws"),
        target("api.hyperliquid.xyz", 443)
    );
    assert_eq!(target_of("ws://node.example/ws"), target("node.example", 80));
    assert_eq!(
        target_of("wss://node.example:8443/ws?token=a"),
        target("node.example", 8443)
    );
    assert_eq!(target_of("other://node/ws"), target("node", 443));
    assert_eq!(target_of("mailto:a@b"), Err("url has no host".to_string()));
    assert_eq!(
        target_of("node/ws"),
        Err("bad url: relative URL without a base".to_string())
    );
}

#[test]
fn targets_of_parts() {
    let parts = |host: Option<&str>, port: Option<u16>| {
        target_of_parts(Ok(UrlParts {
            host: host.map(|h| h.to_string()),
            port,
            segments: None,
        }))
    };
    assert_eq!(
        parts(Some("h"), Some(1)),
        Ok(Target {
            host: "h".to_string(),
            port: 1
        })
    );
    assert_eq!(parts(Some("h"), None).unwrap().port, 443);
    assert_eq!(parts(None, Some(1)), Err("url has no host".to_string()));
    assert_eq!(
        target_of_parts(Err("empty host".to_string())),
        Err("bad url: empty host".to_string())
    );
}

#[test]
fn faults_name_their_stage() {
    let expected = [
        (Stage::Url, "bad url: x"),
        (Stage::Dns, "dns resolution failed: x"),
        (Stage::Request, "bad websocket request: x"),
        (Stage::Token, "bad x-token header: x"),
        (Stage::Handshake, "ws handshake failed: x"),
        (Stage::Subscribe, "subscribe send failed: x"),
        (Stage::Ping, "ping send failed: x"),
        (Stage::Endpoint, "bad endpoint: x"),
        (Stage::Tls, "tls config failed: x"),
        (Stage::Connect, "connect failed: x"),
        (Stage::Metadata, "bad x-token metadata: x"),
        (Stage::Start, "stream start failed: x"),
        (Stage::Stream, "stream error: x"),
    ];
    for (stage, text) in expected {
        assert_eq!(fault(stage, "x"), text);
    }
}

#[test]
fn the_last_address_gives_the_reason() {
    assert_eq!(format_unreached(&vec![]), "no address resolved");
    let tried = |addr: &str, cause: &str| Unreached {
        addr: addr.to_string(),
        cause: cause.to_string(),
    };
    assert_eq!(
        format_unreached(&vec![
            tried("[::1]:443", "unreachable"),
            tried("127.0.0.1:443", "refused")
        ]),
        "tcp connect to 127.0.0.1:443 failed: refused"
    );
}

#[test]
fn times_of_day() {
    assert_eq!(
        report_time(0, 0),
        Some("1970-01-01 00:00:00 +0000".to_string())
    );
    assert_eq!(
        report_time(1783602275, 8 * 3600),
        Some("2026-07-09 21:04:35 +0800".to_string())
    );
    assert_eq!(
        report_file_name(1783602275, 8 * 3600),
        Some("report_20260709_210435.md".to_string())
    );
    assert_eq!(report_time(0, 86_400), None);
    assert_eq!(report_file_name(i64::MAX, 0), None);
    assert_eq!(
        report_file_name_at(Some("now".to_string())),
        Some("report_now.md".to_string())
    );
    assert_eq!(report_file_name_at(None), None);
}
