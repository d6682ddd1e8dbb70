use hl_md_latency_bench::config::{
    env_nonempty, env_ws_url, normalize_grpc_endpoint, plan_feeds, push_unique, quicknode_config,
    quicknode_grpc_config, FeedKind, QuicknodeEnv,
};
use hl_md_latency_bench::connect::UrlParts;

fn nothing_set() -> QuicknodeEnv<'static> {
    QuicknodeEnv {
        grpc_url: None,
        rpc_url: None,
        wss_url: None,
        token: None,
        grpc_token: None,
        api_key: None,
    }
}

#[test]
fn quicknode_grpc_config_derivation() {
    // nothing set → unavailable with actionable reason
    let mut env = nothing_set();
    assert!(quicknode_grpc_config(&env)
        .unwrap_err()
        .contains("QUICKNODE_GRPC_URL"));

    // RPC URL alone provides both endpoint candidates and the path token
    env.rpc_url = Some("https://sleek-light-star.quiknode.pro/abc123/");
    let cfg = quicknode_grpc_config(&env).unwrap();
    assert_eq!(
        cfg.endpoints,
        vec![
            "https://sleek-light-star.quiknode.pro:10000".to_string(),
            "https://sleek-light-star.hype-mainnet.quiknode.pro:10000".to_string(),
        ]
    );
    assert_eq!(cfg.tokens, vec!["abc123".to_string()]);

    // explicit gRPC URL takes priority; env tokens appended after path token
    env.grpc_url = Some("my-ep.hype-mainnet.quiknode.pro:10000");
    env.token = Some(" tok-env ");
    let cfg = quicknode_grpc_config(&env).unwrap();
    assert_eq!(
        cfg.endpoints[0],
        "https://my-ep.hype-mainnet.quiknode.pro:10000"
    );
    assert_eq!(
        cfg.tokens,
        vec!["abc123".to_string(), "tok-env".to_string()]
    );
    assert_eq!(cfg.name, "quicknode");
}

#[test]
fn grpc_endpoint_normalization() {
    assert_eq!(
        normalize_grpc_endpoint("host.quiknode.pro:10000"),
        "https://host.quiknode.pro:10000"
    );
    assert_eq!(
        normalize_grpc_endpoint("https://host.quiknode.pro:10000/"),
        "https://host.quiknode.pro:10000"
    );
}

#[test]
fn grpc_endpoint_scheme_is_https() {
    assert_eq!(normalize_grpc_endpoint("  http://a:1//  "), "https://a:1");
    assert_eq!(normalize_grpc_endpoint("https://a:1"), "https://a:1");
    assert_eq!(normalize_grpc_endpoint("\u{3000}a\u{a0}"), "https://a");
    assert_eq!(normalize_grpc_endpoint("httpx"), "https://httpx");

    let mut env = nothing_set();
    env.grpc_url = Some("http://h.example:10000");
    env.token = Some("t");
    let cfg = quicknode_grpc_config(&env).unwrap();
    assert_eq!(cfg.endpoints, vec!["https://h.example:10000".to_string()]);
    assert_eq!(cfg.tokens, vec!["t".to_string()]);
}

#[test]
fn self_hosted_url_comes_from_env() {
    let key = "HL_MD_LATENCY_BENCH_TEST_OB_URL";
    assert_eq!(env_ws_url(key, None), Err(format!("env {key} not set")));
    assert_eq!(
        env_ws_url(key, Some("  wss://node.example/ws?token=secret  ")),
        Ok("wss://node.example/ws?token=secret".to_string())
    );
    assert_eq!(
        env_ws_url(key, Some("   ")),
        Err(format!("env {key} not set"))
    );
}

#[test]
fn variables_are_trimmed() {
    assert_eq!(env_nonempty(None), None);
    assert_eq!(env_nonempty(Some("")), None);
    assert_eq!(env_nonempty(Some(" \t\n")), None);
    assert_eq!(env_nonempty(Some(" a b ")), Some("a b".to_string()));
}

#[test]
fn a_value_is_listed_once() {
    let mut list = vec!["a".to_string()];
    push_unique(&mut list, "b".to_string());
    push_unique(&mut list, "a".to_string());
    push_unique(&mut list, "b".to_string());
    assert_eq!(list, vec!["a".to_string(), "b".to_string()]);
}

#[test]
fn candidates_without_repetition() {
    let mut env = nothing_set();
    env.grpc_url = Some("https://x.quiknode.pro:10000/");
    env.wss_url = Some("wss://x.quiknode.pro/tok");
    env.token = Some("tok");
    env.grpc_token = Some("other");
    env.api_key = Some("other");
    let cfg = quicknode_grpc_config(&env).unwrap();
    assert_eq!(
        cfg.endpoints,
        vec![
            "https://x.quiknode.pro:10000".to_string(),
            "https://x.hype-mainnet.quiknode.pro:10000".to_string(),
        ]
    );
    assert_eq!(cfg.tokens, vec!["tok".to_string(), "other".to_string()]);
}

#[test]
fn only_a_name_right_under_the_domain_has_a_variant() {
    let mut env = nothing_set();
    env.rpc_url = Some("https://a.b.quiknode.pro/t");
    let cfg = quicknode_grpc_config(&env).unwrap();
    assert_eq!(
        cfg.endpoints,
        vec!["https://a.b.quiknode.pro:10000".to_string()]
    );
}

#[test]
fn the_rpc_url_goes_before_the_websocket_url() {
    let mut env = nothing_set();
    env.rpc_url = Some("https://rpc.example//first/second");
    env.wss_url = Some("wss://wss.example/other");
    let cfg = quicknode_grpc_config(&env).unwrap();
    assert_eq!(cfg.endpoints, vec!["https://rpc.example:10000".to_string()]);
    assert_eq!(cfg.tokens, vec!["first".to_string()]);
}

#[test]
fn a_bad_base_url_gives_nothing() {
    let mut env = nothing_set();
    env.rpc_url = Some("not a url");
    env.token = Some("t");
    assert_eq!(
        quicknode_grpc_config(&env).unwrap_err(),
        "no QuickNode gRPC endpoint (set QUICKNODE_GRPC_URL or QUICKNODE_RPC_URL)"
    );
    env.grpc_url = Some("ep:1");
    let cfg = quicknode_grpc_config(&env).unwrap();
    assert_eq!(cfg.endpoints, vec!["https://ep:1".to_string()]);
}

#[test]
fn a_token_is_needed() {
    let mut env = nothing_set();
    env.rpc_url = Some("https://a.example/");
    assert_eq!(
        quicknode_grpc_config(&env).unwrap_err(),
        "no QuickNode token (set QUICKNODE_TOKEN or use a URL with a token path)"
    );
}

#[test]
fn config_from_parts() {
    let env = nothing_set();
    let parts = UrlParts {
        host: Some("n.quiknode.pro".to_string()),
        port: None,
        segments: Some(vec!["".to_string(), "tok".to_string(), "x".to_string()]),
    };
    let cfg = quicknode_config(&env, Some(parts)).unwrap();
    assert_eq!(
        cfg.endpoints,
        vec![
            "https://n.quiknode.pro:10000".to_string(),
            "https://n.hype-mainnet.quiknode.pro:10000".to_string(),
        ]
    );
    assert_eq!(cfg.tokens, vec!["tok".to_string()]);
}

#[test]
fn four_feeds_in_order() {
    let feeds = plan_feeds(Err("no token".to_string()), Some(" wss://ob/ws "), None);
    let names: Vec<&str> = feeds.iter().map(|f| f.name).collect();
    assert_eq!(names, vec!["official", "quicknode", "ob", "obaws"]);
    match &feeds[0].kind {
        Ok(FeedKind::Ws(c)) => {
            assert_eq!(c.name, "official");
            assert_eq!(c.url, "wss://api.hyperliquid.xyz/ws");
            assert!(c.x_token.is_none());
        }
        other => panic!("unexpected {other:?}"),
    }
    assert!(matches!(&feeds[1].kind, Err(e) if e == "no token"));
    assert!(
        matches!(&feeds[2].kind, Ok(FeedKind::Ws(c)) if c.url == "wss://ob/ws" && c.name == "ob")
    );
    assert!(matches!(&feeds[3].kind, Err(e) if e == "env OBAWS_WSS_URL not set"));
}

#[test]
fn a_normalized_endpoint_stays_as_it_is() {
    for endpoint in ["a", "http://a:1//", " https://b ", "c/d/"] {
        let once = normalize_grpc_endpoint(endpoint);
        assert_eq!(normalize_grpc_endpoint(&once), once);
    }
}
