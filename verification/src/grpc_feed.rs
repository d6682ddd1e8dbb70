//! The gRPC feed.

use vstd::prelude::*;
use vstd::utf8::*;

use crate::connect::{fault, stage_text, Stage};
use crate::feed::{Event, EventView};
use crate::retry::{Retry, Step, StepView};
use crate::search::{contains, matches_at, occurs};
use crate::session::{end_view, EndView, SessionEnd, Turn, TurnView};
use crate::text::{concat, decimal, lemma_encode_concat, push_decimal, texts};

verus! {

/// A gRPC feed.
#[derive(Debug)]
pub struct GrpcFeedConfig {
    pub name: &'static str,
    /// candidate endpoints, e.g. `https://host:10000`
    pub endpoints: Vec<String>,
    /// candidate `x-token` values
    pub tokens: Vec<String>,
}

/// One side of the book at its best price.
#[derive(Debug)]
pub struct L2Level {
    pub px: String,
    pub sz: String,
    pub n: u64,
}

/// One update of the best bid and offer.
#[derive(Debug)]
pub struct BboBookUpdate {
    pub coin: String,
    pub time: u64,
    pub block_number: u64,
    pub bid: Option<L2Level>,
    pub ask: Option<L2Level>,
}

/// A side as it stands in a message, behind its key.
pub open spec fn level_json(level: L2Level) -> Seq<char> {
    "{\"px\":\""@ + level.px@ + "\",\"sz\":\""@ + level.sz@ + "\",\"n\":"@ + decimal(
        level.n as nat,
    ) + "}"@
}

/// A side with its key, or nothing where the side is empty.
pub open spec fn side_json(key: Seq<char>, side: Option<L2Level>) -> Seq<char> {
    match side {
        Some(level) => key + level_json(level),
        None => Seq::empty(),
    }
}

/// An update as a message of the self-hosted node.
pub open spec fn update_json(u: BboBookUpdate) -> Seq<char> {
    "{\"channel\":\"bbo\",\"data\":{\"coin\":\""@ + u.coin@ + "\",\"time\":"@ + decimal(
        u.time as nat,
    ) + side_json(",\"bid\":"@, u.bid) + side_json(",\"ask\":"@, u.ask) + "}}"@
}

fn push_side(out: &mut String, key: &str, side: &Option<L2Level>)
    ensures
        final(out)@ == old(out)@ + side_json(key@, *side),
{
    if let Some(level) = side {
        out.append(key);
        out.append("{\"px\":\"");
        out.append(level.px.as_str());
        out.append("\",\"sz\":\"");
        out.append(level.sz.as_str());
        out.append("\",\"n\":");
        push_decimal(out, level.n);
        out.append("}");
    }
    assert(out@ =~= old(out)@ + side_json(key@, *side));
}

/// Render a BboBookUpdate as the self-hosted-node JSON shape so the
/// aggregator's `parse_bbo_content` treats ws and gRPC samples uniformly.
pub fn bbo_update_json(u: &BboBookUpdate) -> (json: String)
    ensures
        json@ == update_json(*u),
{
    let mut s = String::from_str("{\"channel\":\"bbo\",\"data\":{\"coin\":\"");
    s.append(u.coin.as_str());
    s.append("\",\"time\":");
    push_decimal(&mut s, u.time);
    push_side(&mut s, ",\"bid\":", &u.bid);
    push_side(&mut s, ",\"ask\":", &u.ask);
    s.append("}}");
    s
}

/// How long a session waits for its first update.
pub const FIRST_MESSAGE_TIMEOUT_NS: u128 = 15_000_000_000;

/// The words of a fault and of its causes, each where they are not told yet.
pub open spec fn chain_text(first: Seq<char>, causes: Seq<Seq<char>>) -> Seq<char>
    decreases causes.len(),
{
    if causes.len() == 0 {
        first
    } else {
        let told = chain_text(first, causes.drop_last());
        let next = causes.last();
        if next.len() == 0 || occurs(encode_utf8(told), encode_utf8(next)) {
            told
        } else {
            told + ": "@ + next
        }
    }
}

/// The words of a fault and of its causes, each where they are not told yet.
pub fn format_error_chain(first: &str, causes: &Vec<String>) -> (msg: String)
    ensures
        msg@ == chain_text(first@, texts(causes@)),
{
    let ghost all = texts(causes@);
    let mut msg = String::from_str(first);
    let mut i: usize = 0;
    assert(all.take(0) =~= Seq::empty());
    while i < causes.len()
        invariant
            all == texts(causes@),
            i <= causes@.len(),
            msg@ == chain_text(first@, all.take(i as int)),
        decreases causes@.len() - i,
    {
        let next = causes[i].as_str();
        assert(all.take(i + 1).drop_last() =~= all.take(i as int));
        assert(all.take(i + 1).last() == next@);
        if !next.is_empty() && !contains(msg.as_str(), next) {
            msg.append(": ");
            msg.append(next);
        }
        i += 1;
    }
    assert(all.take(all.len() as int) =~= all);
    msg
}

/// Every cause of a fault is told, and its own words come first.
pub proof fn every_cause_is_told(first: Seq<char>, causes: Seq<Seq<char>>, i: int)
    requires
        0 <= i < causes.len(),
    ensures
        occurs(encode_utf8(chain_text(first, causes)), encode_utf8(causes[i])),
        first.is_prefix_of(chain_text(first, causes)),
    decreases causes.len(),
{
    let told = chain_text(first, causes.drop_last());
    let next = causes.last();
    lemma_starts_with_first(first, causes);
    if i < causes.len() - 1 {
        every_cause_is_told(first, causes.drop_last(), i);
        assert(causes.drop_last()[i] == causes[i]);
        if chain_text(first, causes) != told {
            lemma_occurs_in_concat(told, ": "@ + next, causes[i]);
            assert(told + (": "@ + next) =~= told + ": "@ + next);
        }
    } else if next.len() == 0 {
        assert(encode_utf8(next) =~= Seq::empty());
        assert(encode_utf8(told).subrange(0, 0) =~= encode_utf8(next));
        assert(matches_at(encode_utf8(told), encode_utf8(next), 0));
    } else if chain_text(first, causes) != told {
        let all = encode_utf8(told + ": "@ + next);
        lemma_encode_concat(told + ": "@, next);
        let at = encode_utf8(told + ": "@).len() as int;
        assert(all.subrange(at, at + encode_utf8(next).len()) =~= encode_utf8(next));
        assert(matches_at(all, encode_utf8(next), at));
    }
}

proof fn lemma_starts_with_first(first: Seq<char>, causes: Seq<Seq<char>>)
    ensures
        first.is_prefix_of(chain_text(first, causes)),
    decreases causes.len(),
{
    if causes.len() > 0 {
        lemma_starts_with_first(first, causes.drop_last());
    }
}

proof fn lemma_occurs_in_concat(a: Seq<char>, b: Seq<char>, needle: Seq<char>)
    requires
        occurs(encode_utf8(a), encode_utf8(needle)),
    ensures
        occurs(encode_utf8(a + b), encode_utf8(needle)),
{
    lemma_encode_concat(a, b);
    let n = encode_utf8(needle);
    let at = choose|at: int| matches_at(encode_utf8(a), n, at);
    assert(encode_utf8(a + b).subrange(at, at + n.len()) =~= encode_utf8(a).subrange(
        at,
        at + n.len(),
    ));
    assert(matches_at(encode_utf8(a + b), n, at));
}

/// What a read from the stream gave.
#[derive(Debug)]
pub enum GrpcRead {
    /// nothing yet, so long after the stream was started
    Timeout {
        waited_ns: u128,
    },
    /// an update
    Update(BboBookUpdate),
    /// the end of the stream
    End,
    /// a fault and its causes
    Failed {
        first: String,
        causes: Vec<String>,
    },
}

/// A session with a gRPC stream.
#[derive(Clone, Copy, Debug, PartialEq, Eq, Structural)]
pub struct GrpcSession {
    /// an update has come
    pub subscribed: bool,
}

impl GrpcSession {
    /// The session after a read.
    pub open spec fn after(self, read: GrpcRead) -> Self {
        GrpcSession { subscribed: self.subscribed || read is Update }
    }

    /// How the session ends with a fault.
    pub open spec fn faulted(self, reason: Seq<char>) -> TurnView {
        TurnView::ended(
            if self.subscribed {
                EndView::Lost(reason)
            } else {
                EndView::Failed(reason)
            },
        )
    }

    /// What follows from a read.
    pub open spec fn turn(self, feed: usize, local_ns: u64, read: GrpcRead) -> TurnView {
        match read {
            GrpcRead::Timeout { waited_ns } => if !self.subscribed && waited_ns
                > FIRST_MESSAGE_TIMEOUT_NS {
                TurnView::ended(EndView::Failed("no bbo data within 15s"@))
            } else {
                TurnView::nothing()
            },
            GrpcRead::Update(u) => TurnView {
                notice: if self.subscribed {
                    None
                } else {
                    Some(EventView::Subscribed(feed))
                },
                sample: Some(EventView::Sample(feed, u.time, local_ns, update_json(u))),
                end: None,
            },
            GrpcRead::End => self.faulted(
                if self.subscribed {
                    "stream ended by server"@
                } else {
                    "stream ended before any data"@
                },
            ),
            GrpcRead::Failed { first, causes } => self.faulted(
                stage_text(Stage::Stream) + chain_text(first@, texts(causes@)),
            ),
        }
    }

    /// A session whose stream has been started.
    pub fn new() -> (s: Self)
        ensures
            s == (GrpcSession { subscribed: false }),
    {
        GrpcSession { subscribed: false }
    }

    /// Takes in what was read at `local_ns` and says what follows.
    pub fn on_read(&mut self, feed: usize, local_ns: u64, read: GrpcRead) -> (turn: Turn)
        ensures
            *final(self) == old(self).after(read),
            turn@ == old(self).turn(feed, local_ns, read),
    {
        match read {
            GrpcRead::Timeout { waited_ns } => {
                if !self.subscribed && waited_ns > FIRST_MESSAGE_TIMEOUT_NS {
                    Turn::ended(Err(String::from_str("no bbo data within 15s")))
                } else {
                    Turn::nothing()
                }
            },
            GrpcRead::Update(update) => {
                let notice = if self.subscribed {
                    None
                } else {
                    self.subscribed = true;
                    Some(Event::Subscribed { feed })
                };
                let text = bbo_update_json(&update);
                let sample = Event::Sample { feed, time_ms: update.time, local_ns, text };
                Turn { notice, sample: Some(sample), end: None }
            },
            GrpcRead::End => {
                if self.subscribed {
                    Turn::ended(Ok(SessionEnd::Lost(String::from_str("stream ended by server"))))
                } else {
                    Turn::ended(Err(String::from_str("stream ended before any data")))
                }
            },
            GrpcRead::Failed { first, causes } => {
                let reason = fault(
                    Stage::Stream,
                    format_error_chain(first.as_str(), &causes).as_str(),
                );
                if self.subscribed {
                    Turn::ended(Ok(SessionEnd::Lost(reason)))
                } else {
                    Turn::ended(Err(reason))
                }
            },
        }
    }
}

/// A session fails only before its first update and is lost only after; it reports its
/// subscription with its first update, and every update gives a sample with the time of
/// the update.
pub proof fn only_a_stream_without_data_fails(
    s: GrpcSession,
    feed: usize,
    local_ns: u64,
    read: GrpcRead,
)
    ensures
        s.turn(feed, local_ns, read).end matches Some(end) ==> (end is Failed
            <==> !s.subscribed) && (end is Lost <==> s.subscribed),
        s.turn(feed, local_ns, read).notice is Some <==> !s.subscribed && s.after(read).subscribed,
        read matches GrpcRead::Update(u) ==> s.turn(feed, local_ns, read).sample == Some(
            EventView::Sample(feed, u.time, local_ns, update_json(u)),
        ),
        s.subscribed ==> s.after(read).subscribed,
{
}

/// What a gRPC feed does next.
#[derive(Debug)]
pub enum Action {
    /// it starts a session with this endpoint and this token
    Try {
        endpoint: usize,
        token: usize,
    },
    /// it does what it does after a session
    Rest(Step),
}

/// What a gRPC feed does next.
pub enum ActionView {
    Try(usize, usize),
    Rest(StepView),
}

impl View for Action {
    type V = ActionView;

    open spec fn view(&self) -> ActionView {
        match *self {
            Action::Try { endpoint, token } => ActionView::Try(endpoint, token),
            Action::Rest(step) => ActionView::Rest(step@),
        }
    }
}

/// How the attempts of a gRPC feed to connect have gone so far. Until a session has
/// delivered something, the feed tries every pair of an endpoint and a token, round by
/// round; then it keeps to the pair of that session.
#[derive(Clone, Copy, Debug, PartialEq, Eq)]
pub struct GrpcRun {
    /// the pair that the feed keeps to
    pub working: Option<(usize, usize)>,
    /// the pair that is tried
    pub at: (usize, usize),
    /// the rounds and the sessions of the working pair
    pub retry: Retry,
}

/// The pair to try after another: all tokens with one endpoint, and then the next
/// endpoint.
pub open spec fn next_pair(at: (usize, usize), endpoints: nat, tokens: nat) -> Option<
    (usize, usize),
> {
    if at.1 + 1 < tokens {
        Some((at.0, (at.1 + 1) as usize))
    } else if at.0 + 1 < endpoints {
        Some(((at.0 + 1) as usize, 0))
    } else {
        None
    }
}

impl GrpcRun {
    /// The attempts are in order, with so many endpoints and tokens.
    pub open spec fn wf(self, endpoints: nat, tokens: nat) -> bool {
        &&& self.retry.wf()
        &&& self.working is Some <==> self.retry.connected_once
        &&& self.working matches Some(pair) ==> pair.0 < endpoints && pair.1 < tokens
    }

    /// A pair is being tried.
    pub open spec fn trying(self, endpoints: nat, tokens: nat) -> bool {
        self.wf(endpoints, tokens) && (self.working is None ==> self.at.0 < endpoints
            && self.at.1 < tokens)
    }

    /// The attempts after a round or a session of the working pair.
    pub open spec fn rested(self, end: EndView) -> Self {
        GrpcRun { retry: self.retry.after(end), ..self }
    }

    /// The reason of a round without a pair to try.
    pub open spec fn nothing_to_try() -> EndView {
        EndView::Failed("no endpoint/token candidates"@)
    }

    /// The attempts at the start of a turn.
    pub open spec fn begun(self, endpoints: nat, tokens: nat) -> Self {
        if self.working is Some {
            self
        } else if endpoints == 0 || tokens == 0 {
            self.rested(GrpcRun::nothing_to_try())
        } else {
            GrpcRun { at: (0, 0), ..self }
        }
    }

    /// What the feed does at the start of a turn.
    pub open spec fn first_action(self, feed: usize, endpoints: nat, tokens: nat) -> ActionView {
        match self.working {
            Some(pair) => ActionView::Try(pair.0, pair.1),
            None => if endpoints == 0 || tokens == 0 {
                ActionView::Rest(self.retry.step(feed, GrpcRun::nothing_to_try()))
            } else {
                ActionView::Try(0, 0)
            },
        }
    }

    /// How a session ended, told with the endpoint while pairs are tried.
    pub open spec fn told(self, endpoints: Seq<Seq<char>>, end: EndView) -> EndView {
        match end {
            EndView::Failed(reason) if self.working is None => EndView::Failed(
                endpoints[self.at.0 as int] + ": "@ + reason,
            ),
            _ => end,
        }
    }

    /// The attempts after a session.
    pub open spec fn after(self, endpoints: Seq<Seq<char>>, tokens: nat, end: EndView) -> Self {
        if self.working is Some {
            self.rested(end)
        } else if end is Failed {
            match next_pair(self.at, endpoints.len(), tokens) {
                Some(pair) => GrpcRun { at: pair, ..self },
                None => self.rested(self.told(endpoints, end)),
            }
        } else {
            GrpcRun { working: Some(self.at), ..self.rested(end) }
        }
    }

    /// What the feed does after a session.
    pub open spec fn action(
        self,
        feed: usize,
        endpoints: Seq<Seq<char>>,
        tokens: nat,
        end: EndView,
    ) -> ActionView {
        match next_pair(self.at, endpoints.len(), tokens) {
            Some(pair) if self.working is None && end is Failed => ActionView::Try(pair.0, pair.1),
            _ => ActionView::Rest(self.retry.step(feed, self.told(endpoints, end))),
        }
    }

    /// A feed that has not tried yet.
    pub fn new() -> (r: Self)
        ensures
            r == (GrpcRun { working: None, at: (0, 0), retry: Retry::fresh() }),
            forall|e: nat, t: nat| r.wf(e, t),
    {
        GrpcRun { working: None, at: (0, 0), retry: Retry::new() }
    }

    /// Starts a turn of the feed and says what it does.
    pub fn begin(&mut self, feed: usize, cfg: &GrpcFeedConfig) -> (action: Action)
        requires
            old(self).wf(cfg.endpoints@.len(), cfg.tokens@.len()),
        ensures
            *final(self) == old(self).begun(cfg.endpoints@.len(), cfg.tokens@.len()),
            action@ == old(self).first_action(feed, cfg.endpoints@.len(), cfg.tokens@.len()),
            match action@ {
                ActionView::Try(_, _) => final(self).trying(
                    cfg.endpoints@.len(),
                    cfg.tokens@.len(),
                ),
                ActionView::Rest(step) => step.sleep_secs is Some ==> final(self).wf(
                    cfg.endpoints@.len(),
                    cfg.tokens@.len(),
                ),
            },
    {
        match self.working {
            Some(pair) => Action::Try { endpoint: pair.0, token: pair.1 },
            None => {
                if cfg.endpoints.len() == 0 || cfg.tokens.len() == 0 {
                    let reason = String::from_str("no endpoint/token candidates");
                    Action::Rest(self.retry.on_end(feed, Err(reason)))
                } else {
                    self.at = (0, 0);
                    Action::Try { endpoint: 0, token: 0 }
                }
            },
        }
    }
}

/// Goes on with a turn of a gRPC feed: takes in the end of a session and says what the
/// feed does next. Where that is not another session the turn is over, and the next one
/// begins unless the feed is over or is asked to stop.
pub fn run_grpc_feed(
    feed: usize,
    cfg: &GrpcFeedConfig,
    run: &mut GrpcRun,
    end: Result<SessionEnd, String>,
) -> (action: Action)
    requires
        old(run).trying(cfg.endpoints@.len(), cfg.tokens@.len()),
    ensures
        *final(run) == old(run).after(texts(cfg.endpoints@), cfg.tokens@.len(), end_view(end)),
        action@ == old(run).action(
            feed,
            texts(cfg.endpoints@),
            cfg.tokens@.len(),
            end_view(end),
        ),
        match action@ {
            ActionView::Try(_, _) => final(run).trying(cfg.endpoints@.len(), cfg.tokens@.len()),
            ActionView::Rest(step) => step.sleep_secs is Some ==> final(run).wf(
                cfg.endpoints@.len(),
                cfg.tokens@.len(),
            ),
        },
{
    if run.working.is_some() {
        return Action::Rest(run.retry.on_end(feed, end));
    }
    match end {
        Err(reason) => {
            if run.at.1 < cfg.tokens.len() - 1 {
                run.at = (run.at.0, run.at.1 + 1);
                Action::Try { endpoint: run.at.0, token: run.at.1 }
            } else if run.at.0 < cfg.endpoints.len() - 1 {
                run.at = (run.at.0 + 1, 0);
                Action::Try { endpoint: run.at.0, token: run.at.1 }
            } else {
                let mut told = concat(cfg.endpoints[run.at.0].as_str(), ": ");
                told.append(reason.as_str());
                Action::Rest(run.retry.on_end(feed, Err(told)))
            }
        },
        Ok(end) => {
            run.working = Some(run.at);
            Action::Rest(run.retry.on_end(feed, Ok(end)))
        },
    }
}

impl GrpcRun {
    /// The attempts after sessions that all failed, for these reasons.
    pub open spec fn after_failures(
        self,
        endpoints: Seq<Seq<char>>,
        tokens: nat,
        reasons: Seq<Seq<char>>,
    ) -> Self
        decreases reasons.len(),
    {
        if reasons.len() == 0 {
            self
        } else {
            self.after_failures(endpoints, tokens, reasons.drop_last()).after(
                endpoints,
                tokens,
                EndView::Failed(reasons.last()),
            )
        }
    }

    /// The attempts after a whole round that failed, from its start on.
    pub open spec fn after_round(
        self,
        endpoints: Seq<Seq<char>>,
        tokens: nat,
        reasons: Seq<Seq<char>>,
    ) -> Self {
        self.begun(endpoints.len(), tokens).after_failures(endpoints, tokens, reasons)
    }
}

/// While pairs are tried, a round goes through all tokens with the first endpoint, then
/// through all with the next, and so on: after k failures it is at endpoint k / n and
/// token k % n, with n tokens. The round leaves everything else as it was.
pub proof fn pairs_are_tried_in_order(
    run: GrpcRun,
    endpoints: Seq<Seq<char>>,
    tokens: nat,
    reasons: Seq<Seq<char>>,
)
    requires
        run.working is None,
        0 < endpoints.len() <= usize::MAX,
        0 < tokens <= usize::MAX,
        reasons.len() < endpoints.len() * tokens,
    ensures
        ({
            let now = run.after_round(endpoints, tokens, reasons);
            &&& now.at.0 == reasons.len() / tokens
            &&& now.at.1 == reasons.len() % tokens
            &&& now.at.0 < endpoints.len()
            &&& now.working is None
            &&& now.retry == run.retry
        }),
    decreases reasons.len(),
{
    let k = reasons.len() as int;
    let n = tokens as int;
    let m = endpoints.len() as int;
    if k == 0 {
        assert(0int / n == 0 && 0int % n == 0) by (nonlinear_arith)
            requires
                n > 0,
        ;
    } else {
        pairs_are_tried_in_order(run, endpoints, tokens, reasons.drop_last());
        let before = run.after_round(endpoints, tokens, reasons.drop_last());
        let q = (k - 1) / n;
        let r = (k - 1) % n;
        assert(before.at.0 == q && before.at.1 == r);
        vstd::arithmetic::div_mod::lemma_fundamental_div_mod(k - 1, n);
        assert(0 <= r < n) by (nonlinear_arith)
            requires
                n > 0,
                r == (k - 1) % n,
        ;
        if r + 1 < n {
            vstd::arithmetic::div_mod::lemma_fundamental_div_mod_converse(k, n, q, r + 1);
        } else {
            assert(k == (q + 1) * n + 0) by (nonlinear_arith)
                requires
                    k - 1 == n * q + r,
                    r + 1 == n,
            ;
            vstd::arithmetic::div_mod::lemma_fundamental_div_mod_converse(k, n, q + 1, 0);
            assert(q + 1 < m) by (nonlinear_arith)
                requires
                    k == (q + 1) * n + 0,
                    k < m * n,
                    n > 0,
            ;
        }
    }
}

/// A round that fails with every pair is one failure, told with the last endpoint and
/// the reason of the last session.
pub proof fn a_round_fails_with_its_last_pair(
    run: GrpcRun,
    feed: usize,
    endpoints: Seq<Seq<char>>,
    tokens: nat,
    reasons: Seq<Seq<char>>,
    last: Seq<char>,
)
    requires
        run.working is None,
        0 < endpoints.len() <= usize::MAX,
        0 < tokens <= usize::MAX,
        reasons.len() + 1 == endpoints.len() * tokens,
    ensures
        ({
            let now = run.after_round(endpoints, tokens, reasons);
            let told = EndView::Failed(endpoints.last() + ": "@ + last);
            &&& now.action(feed, endpoints, tokens, EndView::Failed(last)) == ActionView::Rest(
                run.retry.step(feed, told),
            )
            &&& run.after_round(endpoints, tokens, reasons.push(last)).retry == run.retry.after(
                told,
            )
            &&& run.after_round(endpoints, tokens, reasons.push(last)).working is None
        }),
{
    pairs_are_tried_in_order(run, endpoints, tokens, reasons);
    let k = reasons.len() as int;
    let n = tokens as int;
    let m = endpoints.len() as int;
    assert(k == (m - 1) * n + (n - 1)) by (nonlinear_arith)
        requires
            k + 1 == m * n,
    ;
    vstd::arithmetic::div_mod::lemma_fundamental_div_mod_converse(k, n, m - 1, n - 1);
    assert(reasons.push(last).drop_last() =~= reasons);
}

/// A feed that never gets through gives up after exactly three rounds, and the reason
/// it gives is that of the last session of the last round.
pub proof fn gives_up_after_the_third_round(
    feed: usize,
    endpoints: Seq<Seq<char>>,
    tokens: nat,
    first: Seq<Seq<char>>,
    second: Seq<Seq<char>>,
    third: Seq<Seq<char>>,
    last: Seq<char>,
)
    requires
        0 < endpoints.len() <= usize::MAX,
        0 < tokens <= usize::MAX,
        first.len() == endpoints.len() * tokens,
        second.len() == endpoints.len() * tokens,
        third.len() + 1 == endpoints.len() * tokens,
    ensures
        ({
            let run = GrpcRun { working: None, at: (0, 0), retry: Retry::fresh() };
            let one = run.after_round(endpoints, tokens, first);
            let two = one.after_round(endpoints, tokens, second);
            let three = two.after_round(endpoints, tokens, third);
            &&& one.first_action(feed, endpoints.len(), tokens) is Try
            &&& two.first_action(feed, endpoints.len(), tokens) is Try
            &&& three.action(feed, endpoints, tokens, EndView::Failed(last)) == ActionView::Rest(
                StepView {
                    event: Some(
                        EventView::Unavailable(feed, endpoints.last() + ": "@ + last),
                    ),
                    sleep_secs: None,
                },
            )
        }),
{
    let run = GrpcRun { working: None, at: (0, 0), retry: Retry::fresh() };
    let one = run.after_round(endpoints, tokens, first);
    let two = one.after_round(endpoints, tokens, second);
    assert(endpoints.len() * tokens > 0) by (nonlinear_arith)
        requires
            endpoints.len() > 0,
            tokens > 0,
    ;
    assert(first.drop_last().push(first.last()) =~= first);
    assert(second.drop_last().push(second.last()) =~= second);
    a_round_fails_with_its_last_pair(
        run,
        feed,
        endpoints,
        tokens,
        first.drop_last(),
        first.last(),
    );
    a_round_fails_with_its_last_pair(
        one,
        feed,
        endpoints,
        tokens,
        second.drop_last(),
        second.last(),
    );
    a_round_fails_with_its_last_pair(two, feed, endpoints, tokens, third, last);
}

/// The pair of the first session that delivered something is kept: whatever comes of
/// later sessions, every turn tries that pair and nothing else.
pub proof fn the_first_working_pair_is_kept(
    run: GrpcRun,
    feed: usize,
    endpoints: Seq<Seq<char>>,
    tokens: nat,
    end: EndView,
)
    ensures
        run.working is None && !(end is Failed) ==> run.after(endpoints, tokens, end).working
            == Some(run.at),
        run.working matches Some(pair) ==> {
            let now = run.after(endpoints, tokens, end);
            &&& now.working == run.working
            &&& run.action(feed, endpoints, tokens, end) is Rest
            &&& now.begun(endpoints.len(), tokens) == now
            &&& now.first_action(feed, endpoints.len(), tokens) == ActionView::Try(
                pair.0,
                pair.1,
            )
        },
{
}

/// A session ends for the reason that the stream gives: a session without data that waits
/// for more than fifteen seconds, the end of the stream, or a fault with its causes.
pub proof fn a_stream_ends_for_its_reason(
    s: GrpcSession,
    feed: usize,
    local_ns: u64,
    waited_ns: u128,
    first: String,
    causes: Vec<String>,
)
    ensures
        s.turn(feed, local_ns, GrpcRead::Timeout { waited_ns }).end == if !s.subscribed && waited_ns
            > 15_000_000_000 {
            Some(EndView::Failed("no bbo data within 15s"@))
        } else {
            None
        },
        s.turn(feed, local_ns, GrpcRead::End).end == Some(
            if s.subscribed {
                EndView::Lost("stream ended by server"@)
            } else {
                EndView::Failed("stream ended before any data"@)
            },
        ),
        s.turn(feed, local_ns, GrpcRead::Failed { first, causes }).end == Some(
            if s.subscribed {
                EndView::Lost("stream error: "@ + chain_text(first@, texts(causes@)))
            } else {
                EndView::Failed("stream error: "@ + chain_text(first@, texts(causes@)))
            },
        ),
        s.turn(feed, local_ns, GrpcRead::Timeout { waited_ns }).sample is None,
        s.turn(feed, local_ns, GrpcRead::End).sample is None,
        s.turn(feed, local_ns, GrpcRead::Failed { first, causes }).sample is None,
{
}

/// One more cause is told at the end, unless it is empty or its words are told already;
/// a fault without causes is told in its own words.
pub proof fn a_new_cause_is_told_last(first: Seq<char>, causes: Seq<Seq<char>>, next: Seq<char>)
    ensures
        chain_text(first, Seq::empty()) == first,
        next.len() == 0 ==> chain_text(first, causes.push(next)) == chain_text(first, causes),
        occurs(encode_utf8(chain_text(first, causes)), encode_utf8(next)) ==> chain_text(
            first,
            causes.push(next),
        ) == chain_text(first, causes),
        next.len() > 0 && !occurs(encode_utf8(chain_text(first, causes)), encode_utf8(next))
            ==> chain_text(first, causes.push(next)) == chain_text(first, causes) + ": "@ + next,
{
    assert(causes.push(next).drop_last() =~= causes);
}

/// A pair that works is tried again as a websocket is: the same pauses, the same reports.
/// While pairs are tried, a session that delivered something is reported when it is lost.
pub proof fn a_working_pair_is_tried_again_like_a_websocket(
    run: GrpcRun,
    feed: usize,
    endpoints: Seq<Seq<char>>,
    tokens: nat,
    end: EndView,
    reason: Seq<char>,
)
    ensures
        run.working is Some ==> {
            &&& run.action(feed, endpoints, tokens, end) == ActionView::Rest(
                run.retry.step(feed, end),
            )
            &&& run.after(endpoints, tokens, end).retry == run.retry.after(end)
        },
        run.action(feed, endpoints, tokens, EndView::Lost(reason)) == ActionView::Rest(
            StepView { event: Some(EventView::Disconnect(feed)), sleep_secs: Some(1) },
        ),
        run.action(feed, endpoints, tokens, EndView::Stopped) == ActionView::Rest(
            StepView { event: None, sleep_secs: None },
        ),
        run.after(endpoints, tokens, EndView::Lost(reason)).retry == run.retry.after(
            EndView::Lost(reason),
        ),
{
}

/// Without a pair to try a round fails at once.
pub proof fn without_pairs_a_round_fails_at_once(
    run: GrpcRun,
    feed: usize,
    endpoints: nat,
    tokens: nat,
)
    requires
        run.working is None,
        endpoints == 0 || tokens == 0,
    ensures
        run.first_action(feed, endpoints, tokens) == ActionView::Rest(
            run.retry.step(feed, EndView::Failed("no endpoint/token candidates"@)),
        ),
        run.begun(endpoints, tokens).retry == run.retry.after(
            EndView::Failed("no endpoint/token candidates"@),
        ),
        run.begun(endpoints, tokens).working is None,
{
}

/// A rendered side holds its price, its size and its count, in this order.
pub proof fn a_rendered_side_holds_its_numbers(level: L2Level)
    ensures
        ("{\"px\":\""@ + level.px@ + "\",\"sz\":\""@ + level.sz@ + "\",\"n\":"@ + decimal(
            level.n as nat,
        )).is_prefix_of(level_json(level)),
        level_json(level).last() == '}',
{
    reveal_strlit("}");
}

/// An action shows what the feed does.
pub proof fn an_action_shows_what_is_done(endpoint: usize, token: usize, step: Step)
    ensures
        (Action::Try { endpoint, token })@ == ActionView::Try(endpoint, token),
        Action::Rest(step)@ == ActionView::Rest(step@),
{
}

} // verus!
