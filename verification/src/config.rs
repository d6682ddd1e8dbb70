//! Which feeds there are, and how each is reached, from the environment.

use vstd::prelude::*;

use crate::connect::{parse_url, parsed_url, UrlParts, UrlView};
use crate::feed::FeedConfig;
use crate::grpc_feed::GrpcFeedConfig;
use crate::text::{
    a_trailing_character_is_taken_away, concat, contains_char, has_prefix, has_suffix,
    is_white_space, result_view, starts_with, str_view, string_view, strip_prefix, strip_suffix,
    texts, trim, trim_end, trim_start, trim_trailing, trimmed,
    white_space_around_a_text_is_trimmed, without_trailing,
};

verus! {

/// The official websocket.
pub const OFFICIAL_WS_URL: &'static str = "wss://api.hyperliquid.xyz/ws";

/// What a variable holds, where it is set: nothing where only white space is left.
pub open spec fn nonempty(raw: Option<Seq<char>>) -> Option<Seq<char>> {
    match raw {
        Some(s) if trimmed(s).len() > 0 => Some(trimmed(s)),
        _ => None,
    }
}

/// The value of a variable without the white space around it, where anything is left.
pub fn env_nonempty(raw: Option<&str>) -> (value: Option<String>)
    ensures
        string_view(value) == nonempty(str_view(raw)),
{
    match raw {
        None => None,
        Some(raw) => {
            let value = trim(raw);
            if value.is_empty() {
                None
            } else {
                Some(String::from_str(value))
            }
        },
    }
}

/// The URL of a websocket, or why there is none.
pub open spec fn ws_url(name: Seq<char>, raw: Option<Seq<char>>) -> Result<Seq<char>, Seq<char>> {
    match nonempty(raw) {
        Some(url) => Ok(url),
        None => Err("env "@ + name + " not set"@),
    }
}

/// The URL of a websocket, from what the variable `name` holds.
pub fn env_ws_url(name: &str, raw: Option<&str>) -> (url: Result<String, String>)
    ensures
        result_view(url) == ws_url(name@, str_view(raw)),
{
    match env_nonempty(raw) {
        Some(url) => Ok(url),
        None => {
            let mut e = concat("env ", name);
            e.append(" not set");
            Err(e)
        },
    }
}

/// An endpoint without the white space around it and the slashes at its end, with the
/// scheme `https`.
pub open spec fn normalized(endpoint: Seq<char>) -> Seq<char> {
    let bare = without_trailing(trimmed(endpoint), '/');
    if has_prefix(bare, "https://"@) {
        bare
    } else if has_prefix(bare, "http://"@) {
        "https://"@ + bare.skip("http://"@.len() as int)
    } else {
        "https://"@ + bare
    }
}

/// An endpoint without the white space around it and the slashes at its end, with the
/// scheme `https`.
pub fn normalize_grpc_endpoint(endpoint: &str) -> (normal: String)
    ensures
        normal@ == normalized(endpoint@),
{
    let bare = trim_trailing(trim(endpoint), '/');
    if starts_with(bare, "https://") {
        String::from_str(bare)
    } else if let Some(rest) = strip_prefix(bare, "http://") {
        concat("https://", rest)
    } else {
        concat("https://", bare)
    }
}

/// `list` with `value` at its end, unless it holds `value`.
pub open spec fn with_unique(list: Seq<Seq<char>>, value: Seq<char>) -> Seq<Seq<char>> {
    if list.contains(value) {
        list
    } else {
        list.push(value)
    }
}

/// Appends a value to a list, unless the list holds it.
pub fn push_unique(list: &mut Vec<String>, value: String)
    ensures
        texts(final(list)@) == with_unique(texts(old(list)@), value@),
{
    let mut i: usize = 0;
    while i < list.len()
        invariant
            i <= list@.len(),
            *list == *old(list),
            forall|k: int| 0 <= k < i ==> texts(list@)[k] != value@,
        decreases list@.len() - i,
    {
        if list[i] == value {
            assert(texts(list@)[i as int] == value@);
            return ;
        }
        i += 1;
    }
    assert(!texts(list@).contains(value@));
    list.push(value);
    assert(texts(list@) =~= texts(old(list)@).push(value@));
}

/// `list` with each value of `more` at its end that it does not hold yet.
pub open spec fn with_all_unique(list: Seq<Seq<char>>, more: Seq<Seq<char>>) -> Seq<Seq<char>>
    decreases more.len(),
{
    if more.len() == 0 {
        list
    } else {
        with_unique(with_all_unique(list, more.drop_last()), more.last())
    }
}

/// What the environment says about the gRPC feed.
pub struct QuicknodeEnv<'a> {
    pub grpc_url: Option<&'a str>,
    pub rpc_url: Option<&'a str>,
    pub wss_url: Option<&'a str>,
    pub token: Option<&'a str>,
    pub grpc_token: Option<&'a str>,
    pub api_key: Option<&'a str>,
}

/// The URL from which host and token are taken.
pub open spec fn base_url(env: QuicknodeEnv) -> Option<Seq<char>> {
    match nonempty(str_view(env.rpc_url)) {
        Some(url) => Some(url),
        None => nonempty(str_view(env.wss_url)),
    }
}

/// The endpoints at a host: port 10000 of the host itself and, where the host is a name
/// right under `quiknode.pro`, of its `hype-mainnet` variant.
pub open spec fn host_endpoints(host: Seq<char>) -> Seq<Seq<char>> {
    let plain = "https://"@ + host + ":10000"@;
    let suffix = ".quiknode.pro"@;
    let name = host.take(host.len() - suffix.len());
    if has_suffix(host, suffix) && !name.contains('.') {
        seq![plain, "https://"@ + name + ".hype-mainnet.quiknode.pro:10000"@]
    } else {
        seq![plain]
    }
}

/// The endpoints to try, in order.
pub open spec fn endpoints(env: QuicknodeEnv, base: Option<UrlView>) -> Seq<Seq<char>> {
    let given = match nonempty(str_view(env.grpc_url)) {
        Some(raw) => seq![normalized(raw)],
        None => Seq::empty(),
    };
    match base {
        Some(UrlView { host: Some(host), .. }) => with_all_unique(given, host_endpoints(host)),
        _ => given,
    }
}

/// The first of some texts that is not empty.
pub open spec fn first_nonempty(list: Seq<Seq<char>>) -> Option<Seq<char>>
    decreases list.len(),
{
    if list.len() == 0 {
        None
    } else if list[0].len() > 0 {
        Some(list[0])
    } else {
        first_nonempty(list.drop_first())
    }
}

/// The token in the path of a URL.
pub open spec fn path_token(base: Option<UrlView>) -> Option<Seq<char>> {
    match base {
        Some(UrlView { segments: Some(segments), .. }) => first_nonempty(segments),
        _ => None,
    }
}

/// `list` with `value` at its end, where there is one that it does not hold yet.
pub open spec fn with_token(list: Seq<Seq<char>>, value: Option<Seq<char>>) -> Seq<Seq<char>> {
    match value {
        Some(v) => with_unique(list, v),
        None => list,
    }
}

/// The tokens to try, in order.
pub open spec fn tokens(env: QuicknodeEnv, base: Option<UrlView>) -> Seq<Seq<char>> {
    let t0 = with_token(Seq::empty(), path_token(base));
    let t1 = with_token(t0, nonempty(str_view(env.token)));
    let t2 = with_token(t1, nonempty(str_view(env.grpc_token)));
    with_token(t2, nonempty(str_view(env.api_key)))
}

/// The gRPC feed.
pub struct GrpcView {
    pub name: Seq<char>,
    pub endpoints: Seq<Seq<char>>,
    pub tokens: Seq<Seq<char>>,
}

/// The gRPC feed, or why there is none.
pub open spec fn grpc_config(env: QuicknodeEnv, base: Option<UrlView>) -> Result<
    GrpcView,
    Seq<char>,
> {
    if endpoints(env, base).len() == 0 {
        Err("no QuickNode gRPC endpoint (set QUICKNODE_GRPC_URL or QUICKNODE_RPC_URL)"@)
    } else if tokens(env, base).len() == 0 {
        Err("no QuickNode token (set QUICKNODE_TOKEN or use a URL with a token path)"@)
    } else {
        Ok(
            GrpcView {
                name: "quicknode"@,
                endpoints: endpoints(env, base),
                tokens: tokens(env, base),
            },
        )
    }
}

/// The gRPC feed, or why there is none.
pub open spec fn config_view(config: Result<GrpcFeedConfig, String>) -> Result<
    GrpcView,
    Seq<char>,
> {
    match config {
        Ok(c) => Ok(
            GrpcView { name: c.name@, endpoints: texts(c.endpoints@), tokens: texts(c.tokens@) },
        ),
        Err(e) => Err(e@),
    }
}

/// The parts of a URL, where there are some.
pub open spec fn base_view(base: Option<UrlParts>) -> Option<UrlView> {
    match base {
        Some(parts) => Some(parts@),
        None => None,
    }
}

fn push_host_endpoints(list: &mut Vec<String>, host: &str)
    ensures
        texts(final(list)@) == with_all_unique(texts(old(list)@), host_endpoints(host@)),
{
    let ghost given = texts(list@);
    let ghost all = host_endpoints(host@);
    proof {
        reveal_with_fuel(with_all_unique, 3);
        assert(all.take(1) =~= seq![all[0]]);
        assert(seq![all[0]].drop_last() =~= Seq::empty());
    }
    let mut plain = concat("https://", host);
    plain.append(":10000");
    push_unique(list, plain);
    assert(texts(list@) == with_unique(given, all[0]));
    if let Some(name) = strip_suffix(host, ".quiknode.pro") {
        if !contains_char(name, '.') {
            let mut variant = concat("https://", name);
            variant.append(".hype-mainnet.quiknode.pro:10000");
            push_unique(list, variant);
            assert(all.drop_last() =~= seq![all[0]]);
            return ;
        }
    }
    assert(all =~= seq![all[0]]);
}

fn find_nonempty(list: &Vec<String>) -> (found: Option<String>)
    ensures
        string_view(found) == first_nonempty(texts(list@)),
{
    let ghost all = texts(list@);
    let mut i: usize = 0;
    assert(all.skip(0) =~= all);
    while i < list.len()
        invariant
            all == texts(list@),
            i <= list@.len(),
            first_nonempty(all) == first_nonempty(all.skip(i as int)),
        decreases list@.len() - i,
    {
        assert(all.skip(i as int)[0] == list@[i as int]@);
        if !list[i].as_str().is_empty() {
            return Some(String::from_str(list[i].as_str()));
        }
        assert(all.skip(i as int).drop_first() =~= all.skip(i + 1));
        i += 1;
    }
    None
}

fn push_token(list: &mut Vec<String>, value: Option<String>)
    ensures
        texts(final(list)@) == with_token(texts(old(list)@), string_view(value)),
{
    if let Some(value) = value {
        push_unique(list, value);
    }
}

/// The gRPC feed, from the environment and the parts of the base URL.
pub fn quicknode_config(env: &QuicknodeEnv, base: Option<UrlParts>) -> (config: Result<
    GrpcFeedConfig,
    String,
>)
    ensures
        config_view(config) == grpc_config(*env, base_view(base)),
{
    let mut endpoints: Vec<String> = Vec::new();
    let mut tokens: Vec<String> = Vec::new();
    assert(texts(endpoints@) =~= Seq::empty());
    assert(texts(tokens@) =~= Seq::empty());
    if let Some(raw) = env_nonempty(env.grpc_url) {
        endpoints.push(normalize_grpc_endpoint(raw.as_str()));
    }
    assert(texts(endpoints@) =~= match nonempty(str_view(env.grpc_url)) {
        Some(raw) => seq![normalized(raw)],
        None => Seq::empty(),
    });
    if let Some(parts) = base {
        if let Some(host) = &parts.host {
            push_host_endpoints(&mut endpoints, host.as_str());
        }
        if let Some(segments) = &parts.segments {
            push_token(&mut tokens, find_nonempty(segments));
        }
    }
    push_token(&mut tokens, env_nonempty(env.token));
    push_token(&mut tokens, env_nonempty(env.grpc_token));
    push_token(&mut tokens, env_nonempty(env.api_key));
    if endpoints.len() == 0 {
        return Err(
            String::from_str(
                "no QuickNode gRPC endpoint (set QUICKNODE_GRPC_URL or QUICKNODE_RPC_URL)",
            ),
        );
    }
    if tokens.len() == 0 {
        return Err(
            String::from_str(
                "no QuickNode token (set QUICKNODE_TOKEN or use a URL with a token path)",
            ),
        );
    }
    Ok(GrpcFeedConfig { name: "quicknode", endpoints, tokens })
}

/// What comes of the base URL: nothing where there is none or it is at fault.
pub open spec fn parsed_base(env: QuicknodeEnv) -> Option<UrlView> {
    match base_url(env) {
        Some(raw) => match parsed_url(raw) {
            Ok(parts) => Some(parts),
            Err(_) => None,
        },
        None => None,
    }
}

/// The gRPC feed, from the environment. The base URL is that of the RPC endpoint or
/// else of the websocket: host and path token come from it.
pub fn quicknode_grpc_config(env: &QuicknodeEnv) -> (config: Result<GrpcFeedConfig, String>)
    ensures
        config_view(config) == grpc_config(*env, parsed_base(*env)),
{
    let base_url = match env_nonempty(env.rpc_url) {
        Some(url) => Some(url),
        None => env_nonempty(env.wss_url),
    };
    let base = match base_url {
        Some(raw) => match parse_url(raw.as_str()) {
            Ok(parts) => Some(parts),
            Err(_) => None,
        },
        None => None,
    };
    quicknode_config(env, base)
}

/// A feed.
#[derive(Debug)]
pub enum FeedKind {
    Ws(FeedConfig),
    Grpc(GrpcFeedConfig),
}

/// A feed, or why it is not available.
#[derive(Debug)]
pub struct PlannedFeed {
    pub name: &'static str,
    pub kind: Result<FeedKind, String>,
}

/// How a feed is reached.
pub enum KindView {
    Ws(Seq<char>, Seq<char>, Option<Seq<char>>),
    Grpc(GrpcView),
}

impl PlannedFeed {
    /// How the feed is reached, or why it is not available.
    pub open spec fn kind_view(self) -> Result<KindView, Seq<char>> {
        match self.kind {
            Ok(FeedKind::Ws(c)) => Ok(KindView::Ws(c.name@, c.url@, string_view(c.x_token))),
            Ok(FeedKind::Grpc(c)) => match config_view(Ok(c)) {
                Ok(g) => Ok(KindView::Grpc(g)),
                Err(e) => Err(e),
            },
            Err(e) => Err(e@),
        }
    }
}

/// A websocket feed, or why it is not available.
pub open spec fn ws_kind(name: Seq<char>, url: Result<Seq<char>, Seq<char>>) -> Result<
    KindView,
    Seq<char>,
> {
    match url {
        Ok(url) => Ok(KindView::Ws(name, url, None)),
        Err(e) => Err(e),
    }
}

fn ws_feed(name: &'static str, url: Result<String, String>) -> (feed: PlannedFeed)
    ensures
        feed.name@ == name@,
        feed.kind_view() == ws_kind(name@, result_view(url)),
{
    match url {
        Ok(url) => PlannedFeed {
            name,
            kind: Ok(FeedKind::Ws(FeedConfig { name, url, x_token: None })),
        },
        Err(e) => PlannedFeed { name, kind: Err(e) },
    }
}

/// All feeds, in the order in which they are reported: the official one, the gRPC feed
/// and the two of self-hosted nodes.
pub fn plan_feeds(
    quicknode: Result<GrpcFeedConfig, String>,
    ob: Option<&str>,
    obaws: Option<&str>,
) -> (feeds: Vec<PlannedFeed>)
    ensures
        feeds@.len() == 4,
        feeds@[0].name@ == "official"@,
        feeds@[0].kind_view() == ws_kind("official"@, Ok(OFFICIAL_WS_URL@)),
        feeds@[1].name@ == "quicknode"@,
        feeds@[1].kind_view() == match config_view(quicknode) {
            Ok(g) => Ok::<KindView, Seq<char>>(KindView::Grpc(g)),
            Err(e) => Err(e),
        },
        feeds@[2].name@ == "ob"@,
        feeds@[2].kind_view() == ws_kind("ob"@, ws_url("OB_WSS_URL"@, str_view(ob))),
        feeds@[3].name@ == "obaws"@,
        feeds@[3].kind_view() == ws_kind("obaws"@, ws_url("OBAWS_WSS_URL"@, str_view(obaws))),
{
    let grpc = match quicknode {
        Ok(config) => PlannedFeed { name: "quicknode", kind: Ok(FeedKind::Grpc(config)) },
        Err(e) => PlannedFeed { name: "quicknode", kind: Err(e) },
    };
    let mut feeds: Vec<PlannedFeed> = Vec::new();
    feeds.push(ws_feed("official", Ok(String::from_str(OFFICIAL_WS_URL))));
    feeds.push(grpc);
    feeds.push(ws_feed("ob", env_ws_url("OB_WSS_URL", ob)));
    feeds.push(ws_feed("obaws", env_ws_url("OBAWS_WSS_URL", obaws)));
    feeds
}

/// No two entries of a list are the same.
pub open spec fn no_repeats(list: Seq<Seq<char>>) -> bool {
    forall|i: int, j: int| 0 <= i < j < list.len() ==> #[trigger] list[i] != #[trigger] list[j]
}

proof fn lemma_with_unique(list: Seq<Seq<char>>, value: Seq<char>)
    requires
        no_repeats(list),
    ensures
        no_repeats(with_unique(list, value)),
        with_unique(list, value).contains(value),
        list.len() <= with_unique(list, value).len(),
        with_unique(list, value).take(list.len() as int) == list,
{
    if !list.contains(value) {
        let all = list.push(value);
        assert(all[list.len() as int] == value);
        assert(all.take(list.len() as int) =~= list);
        assert forall|i: int, j: int| 0 <= i < j < all.len() implies #[trigger] all[i]
            != #[trigger] all[j] by {
            if j == list.len() {
                assert(list[i] != value);
            }
        }
    } else {
        assert(list.take(list.len() as int) =~= list);
    }
}

proof fn lemma_with_all_unique(list: Seq<Seq<char>>, more: Seq<Seq<char>>)
    requires
        no_repeats(list),
    ensures
        no_repeats(with_all_unique(list, more)),
        list.len() <= with_all_unique(list, more).len(),
        with_all_unique(list, more).take(list.len() as int) == list,
    decreases more.len(),
{
    if more.len() > 0 {
        let before = with_all_unique(list, more.drop_last());
        lemma_with_all_unique(list, more.drop_last());
        lemma_with_unique(before, more.last());
        assert(with_all_unique(list, more).take(list.len() as int) =~= before.take(
            list.len() as int,
        )) by {
            let after = with_all_unique(list, more);
            assert(after.take(before.len() as int) == before);
            assert forall|i: int| 0 <= i < list.len() implies after[i] == before[i] by {
                assert(after.take(before.len() as int)[i] == before[i]);
            }
        }
    } else {
        assert(list.take(list.len() as int) =~= list);
    }
}

/// No endpoint and no token is tried twice, and an endpoint that the environment names
/// is tried first.
pub proof fn candidates_are_distinct(env: QuicknodeEnv, base: Option<UrlView>)
    ensures
        no_repeats(endpoints(env, base)),
        no_repeats(tokens(env, base)),
        nonempty(str_view(env.grpc_url)) matches Some(raw) ==> endpoints(env, base).len() > 0
            && endpoints(env, base)[0] == normalized(raw),
{
    let given = match nonempty(str_view(env.grpc_url)) {
        Some(raw) => seq![normalized(raw)],
        None => Seq::<Seq<char>>::empty(),
    };
    if let Some(UrlView { host: Some(host), .. }) = base {
        lemma_with_all_unique(given, host_endpoints(host));
        let all = endpoints(env, base);
        assert(all.take(given.len() as int) == given);
        if given.len() > 0 {
            assert(all.take(given.len() as int)[0] == given[0]);
        }
    }
    let t0 = with_token(Seq::empty(), path_token(base));
    let t1 = with_token(t0, nonempty(str_view(env.token)));
    let t2 = with_token(t1, nonempty(str_view(env.grpc_token)));
    lemma_with_token(Seq::empty(), path_token(base));
    lemma_with_token(t0, nonempty(str_view(env.token)));
    lemma_with_token(t1, nonempty(str_view(env.grpc_token)));
    lemma_with_token(t2, nonempty(str_view(env.api_key)));
}

proof fn lemma_with_token(list: Seq<Seq<char>>, value: Option<Seq<char>>)
    requires
        no_repeats(list),
    ensures
        no_repeats(with_token(list, value)),
        value matches Some(v) ==> with_token(list, value).contains(v),
{
    if let Some(v) = value {
        lemma_with_unique(list, v);
    }
}

/// Normalizing an endpoint once more changes nothing, as long as something other than
/// white space stands before the slashes at its end.
pub proof fn a_normalized_endpoint_stays(endpoint: Seq<char>)
    requires
        ({
            let bare = without_trailing(trimmed(endpoint), '/');
            bare.len() > 0 && !is_white_space(bare.last())
        }),
    ensures
        normalized(normalized(endpoint)) == normalized(endpoint),
{
    reveal_strlit("https://");
    reveal_strlit("http://");
    let bare = without_trailing(trimmed(endpoint), '/');
    let n = normalized(endpoint);
    lemma_no_trailing(trimmed(endpoint), '/');
    assert(n.take(8) =~= "https://"@);
    if has_prefix(bare, "http://"@) {
        assert(bare.take(7)[6] == '/');
        assert(bare.len() > 7);
    }
    assert(n.last() == bare.last());
    assert(n[0] == n.take(8)[0]);
    assert(trim_start(n) == n);
    assert(trim_end(n) == n);
    assert(without_trailing(n, '/') == n);
}

proof fn lemma_no_trailing(s: Seq<char>, c: char)
    ensures
        without_trailing(s, c).len() > 0 ==> without_trailing(s, c).last() != c,
    decreases s.len(),
{
    if s.len() > 0 && s.last() == c {
        lemma_no_trailing(s.drop_last(), c);
    }
}

/// All characters are white space.
pub open spec fn all_white(s: Seq<char>) -> bool {
    forall|i: int| 0 <= i < s.len() ==> is_white_space(#[trigger] s[i])
}

/// The white space around the value of a variable makes no difference, and a variable with
/// nothing else is as one that is not set.
pub proof fn a_variable_holds_what_is_not_white_space(
    before: Seq<char>,
    value: Seq<char>,
    after: Seq<char>,
    name: Seq<char>,
)
    requires
        all_white(before),
        all_white(after),
        value.len() > 0 ==> !is_white_space(value[0]) && !is_white_space(value.last()),
    ensures
        nonempty(None) is None,
        nonempty(Some(before + value + after)) == if value.len() > 0 {
            Some(value)
        } else {
            None
        },
        ws_url(name, None) == Err::<Seq<char>, Seq<char>>("env "@ + name + " not set"@),
        ws_url(name, Some(before + value + after)) == if value.len() > 0 {
            Ok::<Seq<char>, Seq<char>>(value)
        } else {
            Err("env "@ + name + " not set"@)
        },
{
    white_space_around_a_text_is_trimmed(before, value, after);
}

/// An endpoint may be written with `https`, with `http` or without a scheme, with slashes
/// behind it and white space around it: it is one endpoint, with `https`.
pub proof fn every_way_to_write_an_endpoint_is_one(
    before: Seq<char>,
    bare: Seq<char>,
    slashes: nat,
    after: Seq<char>,
)
    requires
        all_white(before),
        all_white(after),
        bare.len() > 0,
        !is_white_space(bare[0]),
        !is_white_space(bare.last()),
        bare.last() != '/',
    ensures
        ({
            let end = Seq::new(slashes, |i: int| '/') + after;
            let one = "https://"@ + bare;
            &&& normalized(before + ("https://"@ + bare) + end) == one
            &&& normalized(before + ("http://"@ + bare) + end) == one
            &&& !has_prefix(bare, "https://"@) && !has_prefix(bare, "http://"@) ==> normalized(
                before + bare + end,
            ) == one
        }),
{
    reveal_strlit("https://");
    reveal_strlit("http://");
    lemma_bare(before, "https://"@ + bare, slashes, after);
    lemma_bare(before, "http://"@ + bare, slashes, after);
    lemma_bare(before, bare, slashes, after);
    let a = "https://"@ + bare;
    let b = "http://"@ + bare;
    assert(a.take(8) =~= "https://"@);
    assert(b.take(7) =~= "http://"@);
    assert(!has_prefix(b, "https://"@)) by {
        if has_prefix(b, "https://"@) {
            assert(b.take(8)[4] == "https://"@[4]);
            assert(b[4] == "http://"@[4]);
        }
    }
    assert(b.skip(7) =~= bare);
}

/// What is left of an endpoint without white space and slashes.
proof fn lemma_bare(before: Seq<char>, s: Seq<char>, slashes: nat, after: Seq<char>)
    requires
        all_white(before),
        all_white(after),
        s.len() > 0,
        !is_white_space(s[0]),
        !is_white_space(s.last()),
        s.last() != '/',
    ensures
        without_trailing(
            trimmed(before + s + (Seq::new(slashes, |i: int| '/') + after)),
            '/',
        ) == s,
{
    let m = Seq::new(slashes, |i: int| '/');
    let t = s + m;
    assert(before + s + (m + after) =~= before + t + after);
    assert(t[0] == s[0]);
    assert(t.last() == if slashes == 0 {
        s.last()
    } else {
        '/'
    });
    white_space_around_a_text_is_trimmed(before, t, after);
    a_trailing_character_is_taken_away(s, '/', slashes);
}

/// The token in a path is its first part that is not empty.
pub proof fn the_token_is_the_first_part_of_the_path(
    empty: nat,
    token: Seq<char>,
    rest: Seq<Seq<char>>,
)
    ensures
        token.len() > 0 ==> first_nonempty(
            Seq::new(empty, |i: int| Seq::<char>::empty()) + seq![token] + rest,
        ) == Some(token),
        first_nonempty(Seq::new(empty, |i: int| Seq::<char>::empty())) is None,
    decreases empty,
{
    let e = Seq::new(empty, |i: int| Seq::<char>::empty());
    let all = e + seq![token] + rest;
    if empty == 0 {
        assert(all[0] == token);
    } else {
        let less = Seq::new((empty - 1) as nat, |i: int| Seq::<char>::empty());
        the_token_is_the_first_part_of_the_path((empty - 1) as nat, token, rest);
        assert(all.drop_first() =~= less + seq![token] + rest);
        assert(e.drop_first() =~= less);
        assert(all[0].len() == 0 && e[0].len() == 0);
    }
}

/// The endpoint at port 10000 of a host.
pub open spec fn at_host(host: Seq<char>) -> Seq<char> {
    "https://"@ + host + ":10000"@
}

/// The endpoints that are tried are the one that the environment names, port 10000 of the
/// host of the base URL and, for a name right under the domain, of its variant: each once,
/// in this order, and no others.
#[verifier::rlimit(40)]
pub proof fn the_endpoints_that_are_tried(
    env: QuicknodeEnv,
    host: Option<Seq<char>>,
    port: Option<u16>,
    segments: Option<Seq<Seq<char>>>,
    name: Seq<char>,
)
    ensures
        ({
            let given = match nonempty(str_view(env.grpc_url)) {
                Some(raw) => seq![normalized(raw)],
                None => Seq::<Seq<char>>::empty(),
            };
            let found = endpoints(env, Some(UrlView { host, port, segments }));
            &&& endpoints(env, None) == given
            &&& host is None ==> found == given
            &&& host matches Some(h) ==> {
                let plain = at_host(h);
                let rest = if given.contains(plain) {
                    given
                } else {
                    given.push(plain)
                };
                let short = h == name + ".quiknode.pro"@ && !name.contains('.');
                let variant = at_host(name + ".hype-mainnet.quiknode.pro"@);
                &&& short ==> found == if rest.contains(variant) {
                    rest
                } else {
                    rest.push(variant)
                }
                &&& (forall|n: Seq<char>|
                    h == #[trigger] (n + ".quiknode.pro"@) ==> n.contains('.')) ==> found == rest
            }
        }),
{
    if let Some(h) = host {
        let given = match nonempty(str_view(env.grpc_url)) {
            Some(raw) => seq![normalized(raw)],
            None => Seq::<Seq<char>>::empty(),
        };
        let suffix = ".quiknode.pro"@;
        let all = host_endpoints(h);
        reveal_with_fuel(with_all_unique, 3);
        assert(all[0] == at_host(h));
        assert(seq![all[0]].drop_last() =~= Seq::empty());
        if h == name + suffix && !name.contains('.') {
            assert(h.take(h.len() - suffix.len()) =~= name);
            assert(h.skip(h.len() - suffix.len()) =~= suffix);
            reveal_strlit(".hype-mainnet.quiknode.pro");
            reveal_strlit(":10000");
            reveal_strlit(".hype-mainnet.quiknode.pro:10000");
            assert(".hype-mainnet.quiknode.pro:10000"@ =~= ".hype-mainnet.quiknode.pro"@
                + ":10000"@);
            assert(all[1] =~= at_host(name + ".hype-mainnet.quiknode.pro"@));
            assert(all.drop_last() =~= seq![all[0]]);
        }
        if forall|n: Seq<char>| h == #[trigger] (n + ".quiknode.pro"@) ==> n.contains('.') {
            if has_suffix(h, suffix) {
                let n = h.take(h.len() - suffix.len());
                assert(n + ".quiknode.pro"@ =~= h);
            }
            assert(all =~= seq![all[0]]);
        }
    }
}

/// Where tokens come from: the path of the base URL, and then the variables.
pub open spec fn token_sources(env: QuicknodeEnv, base: Option<UrlView>) -> Seq<Option<Seq<char>>> {
    seq![
        path_token(base),
        nonempty(str_view(env.token)),
        nonempty(str_view(env.grpc_token)),
        nonempty(str_view(env.api_key)),
    ]
}

/// The list has the values of the first `n` sources, each from the first source that has it
/// and in the order of the sources, and nothing else.
pub open spec fn has_values(
    list: Seq<Seq<char>>,
    from: Seq<int>,
    sources: Seq<Option<Seq<char>>>,
    n: int,
) -> bool {
    &&& from.len() == list.len()
    &&& forall|k: int|
        0 <= k < list.len() ==> 0 <= #[trigger] from[k] < n && sources[from[k]] == Some(list[k])
    &&& forall|k: int, l: int| 0 <= k < l < from.len() ==> #[trigger] from[k] < #[trigger] from[l]
    &&& forall|i: int|
        0 <= i < n && (#[trigger] sources[i]) is Some ==> exists|k: int|
            0 <= k < list.len() && #[trigger] list[k] == sources[i]->0 && from[k] <= i
}

proof fn lemma_one_more_source(
    list: Seq<Seq<char>>,
    from: Seq<int>,
    sources: Seq<Option<Seq<char>>>,
    n: int,
) -> (more: Seq<int>)
    requires
        0 <= n < sources.len(),
        has_values(list, from, sources, n),
    ensures
        has_values(with_token(list, sources[n]), more, sources, n + 1),
{
    match sources[n] {
        Some(v) => if list.contains(v) {
            let k = choose|k: int| 0 <= k < list.len() && list[k] == v;
            assert(from[k] < n);
            from
        } else {
            let more = from.push(n);
            let all = list.push(v);
            assert forall|i: int| 0 <= i < n + 1 && (#[trigger] sources[i]) is Some implies exists|
                k: int,
            |
                0 <= k < all.len() && #[trigger] all[k] == sources[i]->0 && more[k] <= i by {
                if i < n {
                    let k = choose|k: int|
                        0 <= k < list.len() && #[trigger] list[k] == sources[i]->0 && from[k] <= i;
                    assert(all[k] == sources[i]->0 && more[k] <= i);
                } else {
                    assert(all[list.len() as int] == v);
                }
            }
            more
        },
        None => from,
    }
}

/// The tokens that are tried are those of all sources, each once, in the order of the
/// sources: the path of the base URL first.
#[verifier::rlimit(40)]
pub proof fn the_tokens_that_are_tried(env: QuicknodeEnv, base: Option<UrlView>) -> (from: Seq<int>)
    ensures
        has_values(tokens(env, base), from, token_sources(env, base), 4),
{
    let sources = token_sources(env, base);
    let t0 = Seq::<Seq<char>>::empty();
    let t1 = with_token(t0, sources[0]);
    let t2 = with_token(t1, sources[1]);
    let t3 = with_token(t2, sources[2]);
    let f1 = lemma_one_more_source(t0, Seq::empty(), sources, 0);
    let f2 = lemma_one_more_source(t1, f1, sources, 1);
    let f3 = lemma_one_more_source(t2, f2, sources, 2);
    lemma_one_more_source(t3, f3, sources, 3)
}

/// There is a gRPC feed if there is an endpoint and a token; the missing endpoint is told
/// before the missing token.
pub proof fn a_feed_needs_an_endpoint_and_a_token(env: QuicknodeEnv, base: Option<UrlView>)
    ensures
        endpoints(env, base).len() == 0 ==> grpc_config(env, base) == Err::<GrpcView, Seq<char>>(
            "no QuickNode gRPC endpoint (set QUICKNODE_GRPC_URL or QUICKNODE_RPC_URL)"@,
        ),
        endpoints(env, base).len() > 0 && tokens(env, base).len() == 0 ==> grpc_config(env, base)
            == Err::<GrpcView, Seq<char>>(
            "no QuickNode token (set QUICKNODE_TOKEN or use a URL with a token path)"@,
        ),
        endpoints(env, base).len() > 0 && tokens(env, base).len() > 0 ==> grpc_config(env, base)
            == Ok::<GrpcView, Seq<char>>(
            GrpcView {
                name: "quicknode"@,
                endpoints: endpoints(env, base),
                tokens: tokens(env, base),
            },
        ),
{
}

/// The base URL is that of the RPC endpoint or else that of the websocket, and one at fault
/// is as none.
pub proof fn the_rpc_url_goes_first(env: QuicknodeEnv)
    ensures
        ({
            let rpc = nonempty(str_view(env.rpc_url));
            let wss = nonempty(str_view(env.wss_url));
            let url = if rpc is Some {
                rpc
            } else {
                wss
            };
            &&& url is None ==> parsed_base(env) is None
            &&& url matches Some(raw) ==> match parsed_url(raw) {
                Ok(parts) => parsed_base(env) == Some(parts),
                Err(_) => parsed_base(env) is None,
            }
        }),
{
}

/// A websocket feed has its own name and its URL, and no token; without a URL it is
/// unavailable for the reason given.
pub proof fn a_websocket_feed_has_its_url(name: Seq<char>, url: Seq<char>, reason: Seq<char>)
    ensures
        ws_kind(name, Ok(url)) == Ok::<KindView, Seq<char>>(KindView::Ws(name, url, None)),
        ws_kind(name, Err(reason)) == Err::<KindView, Seq<char>>(reason),
{
}

/// The token of a URL is the one in its path; without a path, or without a URL, there is
/// none. A configuration shows all that it holds.
pub proof fn a_configuration_shows_what_it_holds(
    base: UrlView,
    segments: Seq<Seq<char>>,
    config: GrpcFeedConfig,
    cause: String,
)
    ensures
        path_token(None) is None,
        path_token(Some(UrlView { segments: None, ..base })) is None,
        path_token(Some(UrlView { segments: Some(segments), ..base })) == first_nonempty(segments),
        config_view(Ok(config)) == Ok::<GrpcView, Seq<char>>(
            GrpcView {
                name: config.name@,
                endpoints: texts(config.endpoints@),
                tokens: texts(config.tokens@),
            },
        ),
        config_view(Err(cause)) == Err::<GrpcView, Seq<char>>(cause@),
{
}

} // verus!
