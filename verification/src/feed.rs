//! Websocket feeds.

use vstd::prelude::*;
use vstd::utf8::*;

use crate::connect::{fault, stage_text, Stage};
use crate::content::bbo_channel;
use crate::retry::{Retry, Step};
use crate::search::{
    all_digits, blanks_end, contains, digit_run, digits_end, digits_value, find, find_bytes,
    first_at, is_digit, lemma_digit_run, lemma_found_at, lemma_skip_blanks, number, occurs,
    read_number, skip_blanks,
};
use crate::session::{end_view, EndView, SessionEnd, Turn, TurnView};
use crate::text::concat;

verus! {

/// What a feed reports to the aggregator. `feed` is the position of the feed in the
/// list of feeds.
#[derive(Debug)]
pub enum Event {
    Subscribed {
        feed: usize,
    },
    Sample {
        feed: usize,
        time_ms: u64,
        local_ns: u64,
        /// raw bbo message text; content normalization happens in the
        /// aggregator to keep the receive path minimal
        text: String,
    },
    Disconnect {
        feed: usize,
    },
    Unavailable {
        feed: usize,
        reason: String,
    },
}

/// What an event says.
pub enum EventView {
    Subscribed(usize),
    Sample(usize, u64, u64, Seq<char>),
    Disconnect(usize),
    Unavailable(usize, Seq<char>),
}

impl View for Event {
    type V = EventView;

    open spec fn view(&self) -> EventView {
        match *self {
            Event::Subscribed { feed } => EventView::Subscribed(feed),
            Event::Sample { feed, time_ms, local_ns, text } => EventView::Sample(
                feed,
                time_ms,
                local_ns,
                text@,
            ),
            Event::Disconnect { feed } => EventView::Disconnect(feed),
            Event::Unavailable { feed, reason } => EventView::Unavailable(feed, reason@),
        }
    }
}

impl Event {
    /// The position of the feed that reports.
    pub open spec fn of_feed(self) -> usize {
        match self {
            Event::Subscribed { feed } => feed,
            Event::Sample { feed, .. } => feed,
            Event::Disconnect { feed } => feed,
            Event::Unavailable { feed, .. } => feed,
        }
    }
}

/// A websocket feed.
#[derive(Debug)]
pub struct FeedConfig {
    pub name: &'static str,
    pub url: String,
    pub x_token: Option<String>,
}

/// What a feed sends to stay connected.
pub const PING_MSG: &'static str = "{\"method\":\"ping\"}";

/// How long a session waits for its subscription.
pub const SUBSCRIBE_TIMEOUT_NS: u128 = 15_000_000_000;

/// How long a session waits between pings.
pub const PING_INTERVAL_NS: u128 = 30_000_000_000;

/// The request for the best bid and offer of a coin.
pub open spec fn subscription(coin: Seq<char>) -> Seq<char> {
    "{\"method\":\"subscribe\",\"subscription\":{\"type\":\"bbo\",\"coin\":\""@ + coin + "\"}}"@
}

/// The request for the best bid and offer of a coin.
pub fn subscribe_message(coin: &str) -> (msg: String)
    ensures
        msg@ == subscription(coin@),
{
    let mut msg = String::from_str(
        "{\"method\":\"subscribe\",\"subscription\":{\"type\":\"bbo\",\"coin\":\"",
    );
    msg.append(coin);
    msg.append("\"}}");
    msg
}

/// One turn of a feed: takes in the end of a session and says what the feed does
/// next. A feed runs until it is over or is asked to stop.
pub fn run_feed(feed: usize, run: &mut Retry, end: Result<SessionEnd, String>) -> (step: Step)
    requires
        old(run).wf(),
    ensures
        *final(run) == old(run).after(end_view(end)),
        step@ == old(run).step(feed, end_view(end)),
        step.sleep_secs is Some ==> final(run).wf(),
{
    run.on_end(feed, end)
}

/// What a read from the socket gave.
#[derive(Debug)]
pub enum Read {
    /// a message with text
    Text(String),
    /// any other message
    Other,
    /// nothing yet
    Timeout,
    /// a fault
    Failed(String),
}

/// What a message is about.
pub enum Kind {
    Bbo,
    Confirmation,
    Error,
    Other,
}

/// What a message is about, by the channel that it names.
pub open spec fn kind(s: Seq<u8>) -> Kind {
    if occurs(s, bbo_channel()) {
        Kind::Bbo
    } else if occurs(s, encode_utf8("\"channel\":\"subscriptionResponse\""@)) {
        Kind::Confirmation
    } else if occurs(s, encode_utf8("\"channel\":\"error\""@)) {
        Kind::Error
    } else {
        Kind::Other
    }
}

/// What a message is about.
pub fn kind_of(text: &str) -> (k: Kind)
    ensures
        k == kind(encode_utf8(text@)),
{
    if contains(text, "\"channel\":\"bbo\"") {
        Kind::Bbo
    } else if contains(text, "\"channel\":\"subscriptionResponse\"") {
        Kind::Confirmation
    } else if contains(text, "\"channel\":\"error\"") {
        Kind::Error
    } else {
        Kind::Other
    }
}

/// A session with a websocket.
#[derive(Clone, Copy, Debug, PartialEq, Eq, Structural)]
pub struct Session {
    /// the subscription has been confirmed, or data has come
    pub subscribed: bool,
}

/// What follows from the wait for a session's subscription and ping.
#[derive(Debug)]
pub enum Tick {
    /// the session fails
    Fail(String),
    /// a ping is due
    Ping,
    /// nothing is due
    Wait,
}

impl Session {
    /// The session after a read.
    pub open spec fn after(self, read: Read) -> Self {
        match read {
            Read::Text(text) => {
                let k = kind(encode_utf8(text@));
                Session { subscribed: self.subscribed || k is Bbo || k is Confirmation }
            },
            _ => self,
        }
    }

    /// What follows from a read.
    pub open spec fn turn(self, feed: usize, local_ns: u64, read: Read) -> TurnView {
        match read {
            Read::Text(text) => {
                let k = kind(encode_utf8(text@));
                TurnView {
                    notice: if !self.subscribed && (k is Bbo || k is Confirmation) {
                        Some(EventView::Subscribed(feed))
                    } else {
                        None
                    },
                    sample: match message_time(encode_utf8(text@)) {
                        Some(time_ms) if k is Bbo => Some(
                            EventView::Sample(feed, time_ms, local_ns, text@),
                        ),
                        _ => None,
                    },
                    end: if !self.subscribed && k is Error {
                        Some(EndView::Failed("subscription rejected: "@ + text@))
                    } else {
                        None
                    },
                }
            },
            Read::Failed(reason) => TurnView::ended(
                if self.subscribed {
                    EndView::Lost(reason@)
                } else {
                    EndView::Failed(reason@)
                },
            ),
            _ => TurnView::nothing(),
        }
    }

    /// How the session ends when a ping cannot be sent.
    pub open spec fn ping_failed(self, cause: Seq<char>) -> EndView {
        let reason = stage_text(Stage::Ping) + cause;
        if self.subscribed {
            EndView::Lost(reason)
        } else {
            EndView::Failed(reason)
        }
    }

    /// A session whose subscription has been sent.
    pub fn new() -> (s: Self)
        ensures
            s == (Session { subscribed: false }),
    {
        Session { subscribed: false }
    }

    /// Takes in what was read at `local_ns` and says what follows.
    pub fn on_read(&mut self, feed: usize, local_ns: u64, read: Read) -> (turn: Turn)
        ensures
            *final(self) == old(self).after(read),
            turn@ == old(self).turn(feed, local_ns, read),
    {
        match read {
            Read::Text(text) => match kind_of(text.as_str()) {
                Kind::Bbo => {
                    let notice = self.subscribe(feed);
                    let sample = match extract_time_ms(text.as_str()) {
                        Some(time_ms) => Some(Event::Sample { feed, time_ms, local_ns, text }),
                        None => None,
                    };
                    Turn { notice, sample, end: None }
                },
                Kind::Confirmation => {
                    let notice = self.subscribe(feed);
                    Turn { notice, sample: None, end: None }
                },
                Kind::Error => {
                    if self.subscribed {
                        Turn::nothing()
                    } else {
                        Turn::ended(Err(concat("subscription rejected: ", text.as_str())))
                    }
                },
                Kind::Other => Turn::nothing(),
            },
            Read::Failed(reason) => {
                if self.subscribed {
                    Turn::ended(Ok(SessionEnd::Lost(reason)))
                } else {
                    Turn::ended(Err(reason))
                }
            },
            Read::Other => Turn::nothing(),
            Read::Timeout => Turn::nothing(),
        }
    }

    fn subscribe(&mut self, feed: usize) -> (notice: Option<Event>)
        ensures
            final(self).subscribed,
            match notice {
                Some(e) => !old(self).subscribed && e@ == EventView::Subscribed(feed),
                None => old(self).subscribed,
            },
    {
        if self.subscribed {
            None
        } else {
            self.subscribed = true;
            Some(Event::Subscribed { feed })
        }
    }

    /// How the session ends when a ping cannot be sent.
    pub fn on_ping_failed(&self, cause: &str) -> (end: Result<SessionEnd, String>)
        ensures
            end_view(end) == self.ping_failed(cause@),
    {
        let reason = fault(Stage::Ping, cause);
        if self.subscribed {
            Ok(SessionEnd::Lost(reason))
        } else {
            Err(reason)
        }
    }

    /// What is due `waited_ns` after the subscription was sent and `quiet_ns` after the
    /// last ping.
    pub fn on_clock(&self, waited_ns: u128, quiet_ns: u128) -> (tick: Tick)
        ensures
            match tick {
                Tick::Fail(reason) => {
                    &&& !self.subscribed && waited_ns > SUBSCRIBE_TIMEOUT_NS
                    &&& reason@ == "no subscription confirmation or bbo data within 15s"@
                },
                Tick::Ping => {
                    &&& self.subscribed || waited_ns <= SUBSCRIBE_TIMEOUT_NS
                    &&& quiet_ns >= PING_INTERVAL_NS
                },
                Tick::Wait => {
                    &&& self.subscribed || waited_ns <= SUBSCRIBE_TIMEOUT_NS
                    &&& quiet_ns < PING_INTERVAL_NS
                },
            },
    {
        if !self.subscribed && waited_ns > SUBSCRIBE_TIMEOUT_NS {
            Tick::Fail(String::from_str("no subscription confirmation or bbo data within 15s"))
        } else if quiet_ns >= PING_INTERVAL_NS {
            Tick::Ping
        } else {
            Tick::Wait
        }
    }
}

/// The session after several reads.
pub open spec fn after_reads(s: Session, reads: Seq<(u64, Read)>) -> Session
    decreases reads.len(),
{
    if reads.len() == 0 {
        s
    } else {
        after_reads(s, reads.drop_last()).after(reads.last().1)
    }
}

/// How often a session reports its subscription.
pub open spec fn notices(s: Session, feed: usize, reads: Seq<(u64, Read)>) -> nat
    decreases reads.len(),
{
    if reads.len() == 0 {
        0
    } else {
        let now = after_reads(s, reads.drop_last());
        let turn = now.turn(feed, reads.last().0, reads.last().1);
        notices(s, feed, reads.drop_last()) + if turn.notice is Some {
            1nat
        } else {
            0
        }
    }
}

/// A session reports its subscription once, as soon as the subscription is confirmed or
/// data comes, and never again.
pub proof fn a_subscription_is_reported_once(s: Session, feed: usize, reads: Seq<(u64, Read)>)
    ensures
        notices(s, feed, reads) == if !s.subscribed && after_reads(s, reads).subscribed {
            1nat
        } else {
            0
        },
        s.subscribed ==> after_reads(s, reads).subscribed,
    decreases reads.len(),
{
    if reads.len() > 0 {
        a_subscription_is_reported_once(s, feed, reads.drop_last());
    }
}

/// A session fails only before it is subscribed and is lost only after; a sample comes
/// only from a session that is subscribed, with the time in its message.
pub proof fn only_a_session_without_data_fails(
    s: Session,
    feed: usize,
    local_ns: u64,
    read: Read,
    cause: Seq<char>,
)
    ensures
        s.ping_failed(cause) is Failed <==> !s.subscribed,
        s.ping_failed(cause) is Lost <==> s.subscribed,
        s.turn(feed, local_ns, read).end is Some && s.turn(feed, local_ns, read).end->0 is Failed
            ==> !s.after(read).subscribed,
        s.turn(feed, local_ns, read).end is Some && s.turn(feed, local_ns, read).end->0 is Lost
            ==> s.subscribed,
        s.turn(feed, local_ns, read).sample matches Some(e) ==> {
            &&& s.after(read).subscribed
            &&& e matches EventView::Sample(f, time_ms, at, text)
            &&& f == feed && at == local_ns && message_time(encode_utf8(text)) == Some(time_ms)
        },
{
}

/// The key of the exchange time in a message.
pub open spec fn time_key() -> Seq<u8> {
    encode_utf8("\"time\":"@)
}

/// The number that `s` starts with, behind blanks.
pub open spec fn leading_number(s: Seq<u8>) -> Option<u64> {
    let v = skip_blanks(s);
    number(v.take(digit_run(v) as int))
}

/// The exchange time of a message: the digits behind the first `"time":`.
pub open spec fn message_time(s: Seq<u8>) -> Option<u64> {
    match find(s, time_key()) {
        Some(at) => leading_number(s.skip(at + time_key().len())),
        None => None,
    }
}

/// Extract the first `"time":<digits>` value. Both known bbo payload shapes
/// (official `"bbo":[..]` array, self-hosted `"bid"/"ask"` objects) carry
/// `time` directly after `coin` inside `data`, before any nested objects.
pub fn extract_time_ms(msg: &str) -> (time_ms: Option<u64>)
    ensures
        time_ms == message_time(encode_utf8(msg@)),
{
    let key = "\"time\":".as_bytes();
    let bytes = msg.as_bytes();
    match find_bytes(bytes, key) {
        None => None,
        Some(at) => {
            let start = blanks_end(bytes, at + key.len());
            let end = digits_end(bytes, start);
            assert(bytes@.subrange(start as int, end as int) =~= bytes@.skip(start as int).take(
                end - start,
            ));
            read_number(bytes, start, end)
        },
    }
}

/// The time of a message is the number behind the first key of the time: what stands
/// before the key and behind the number has no influence.
pub proof fn only_the_number_behind_the_key_counts(pre: Seq<u8>, digits: Seq<u8>, post: Seq<u8>)
    requires
        first_at(pre + time_key() + digits + post, time_key(), pre.len() as int),
        digits.len() > 0,
        all_digits(digits),
        post.len() > 0 ==> !is_digit(post[0]),
    ensures
        message_time(pre + time_key() + digits + post) == number(digits),
{
    let s = pre + time_key() + digits + post;
    let v = digits + post;
    lemma_found_at(s, time_key(), pre.len() as int);
    assert(s.skip(pre.len() as int + time_key().len()) =~= v);
    assert(is_digit(digits[0]));
    assert(skip_blanks(v) == v);
    assert(v.take(digits.len() as int) =~= digits);
    lemma_digit_run(v, digits.len());
}

/// Every message that names the bbo channel and in which a time can be read gives a sample
/// with that time, with the stamp of its arrival and with its text, and the session goes
/// on; one in which no time can be read gives none.
pub proof fn every_bbo_message_with_a_time_gives_a_sample(
    s: Session,
    feed: usize,
    local_ns: u64,
    text: String,
)
    requires
        occurs(encode_utf8(text@), encode_utf8("\"channel\":\"bbo\""@)),
    ensures
        ({
            let turn = s.turn(feed, local_ns, Read::Text(text));
            &&& turn.sample == match message_time(encode_utf8(text@)) {
                Some(time_ms) => Some(EventView::Sample(feed, time_ms, local_ns, text@)),
                None => None,
            }
            &&& turn.notice == if s.subscribed {
                None
            } else {
                Some(EventView::Subscribed(feed))
            }
            &&& turn.end is None
            &&& s.after(Read::Text(text)).subscribed
        }),
{
}

/// A message of the bbo channel with a number behind its first key of the time gives a
/// sample with that number, wherever in the message both stand.
pub proof fn a_bbo_message_is_stamped_with_its_own_time(
    s: Session,
    feed: usize,
    local_ns: u64,
    text: String,
    pre: Seq<u8>,
    digits: Seq<u8>,
    post: Seq<u8>,
)
    requires
        encode_utf8(text@) == pre + encode_utf8("\"time\":"@) + digits + post,
        occurs(encode_utf8(text@), encode_utf8("\"channel\":\"bbo\""@)),
        first_at(encode_utf8(text@), encode_utf8("\"time\":"@), pre.len() as int),
        digits.len() > 0,
        all_digits(digits),
        post.len() > 0 ==> !is_digit(post[0]),
        digits_value(digits) <= u64::MAX,
    ensures
        s.turn(feed, local_ns, Read::Text(text)).sample == Some(
            EventView::Sample(feed, digits_value(digits) as u64, local_ns, text@),
        ),
{
    only_the_number_behind_the_key_counts(pre, digits, post);
    every_bbo_message_with_a_time_gives_a_sample(s, feed, local_ns, text);
}

/// A message of another channel gives no sample. A confirmation subscribes the session, an
/// error ends one that is not subscribed, and anything else changes nothing.
pub proof fn other_messages_give_no_sample(s: Session, feed: usize, local_ns: u64, text: String)
    requires
        !occurs(encode_utf8(text@), encode_utf8("\"channel\":\"bbo\""@)),
    ensures
        ({
            let bytes = encode_utf8(text@);
            let confirms = occurs(bytes, encode_utf8("\"channel\":\"subscriptionResponse\""@));
            let rejects = !confirms && occurs(bytes, encode_utf8("\"channel\":\"error\""@));
            let turn = s.turn(feed, local_ns, Read::Text(text));
            &&& turn.sample is None
            &&& s.after(Read::Text(text)).subscribed == (s.subscribed || confirms)
            &&& turn.notice == if confirms && !s.subscribed {
                Some(EventView::Subscribed(feed))
            } else {
                None
            }
            &&& turn.end == if rejects && !s.subscribed {
                Some(EndView::Failed("subscription rejected: "@ + text@))
            } else {
                None
            }
        }),
{
}

/// Without text there is no sample and no notice. Only a fault ends the session, for its
/// own reason: a session that is subscribed is lost, another fails.
pub proof fn only_a_fault_ends_a_silent_session(s: Session, feed: usize, local_ns: u64, read: Read)
    requires
        !(read is Text),
    ensures
        s.after(read) == s,
        s.turn(feed, local_ns, read).sample is None,
        s.turn(feed, local_ns, read).notice is None,
        s.turn(feed, local_ns, read).end == match read {
            Read::Failed(reason) => if s.subscribed {
                Some(EndView::Lost(reason@))
            } else {
                Some(EndView::Failed(reason@))
            },
            _ => None,
        },
{
}

/// Without the key of the time no time is read, and neither is one where something other
/// than a digit stands behind the first such key and the blanks that follow it.
pub proof fn without_a_number_there_is_no_time(s: Seq<u8>, at: int, n: nat)
    ensures
        !occurs(s, encode_utf8("\"time\":"@)) ==> message_time(s) is None,
        ({
            let behind = at + encode_utf8("\"time\":"@).len();
            &&& first_at(s, encode_utf8("\"time\":"@), at)
            &&& behind + n <= s.len()
            &&& forall|i: int| behind <= i < behind + n ==> #[trigger] s[i] == 32
            &&& behind + n < s.len() ==> s[behind + n] != 32 && !is_digit(s[behind + n])
        }) ==> message_time(s) is None,
{
    let key = time_key();
    let behind = at + key.len();
    if first_at(s, key, at) && behind + n <= s.len() && (forall|i: int|
        behind <= i < behind + n ==> #[trigger] s[i] == 32) && (behind + n < s.len() ==> s[behind
        + n] != 32 && !is_digit(s[behind + n])) {
        lemma_found_at(s, key, at);
        let v = s.skip(behind);
        assert forall|i: int| 0 <= i < n implies #[trigger] v[i] == 32 by {
            assert(s[behind + i] == 32);
        }
        lemma_skip_blanks(v, n);
        let w = v.skip(n as int);
        assert(w.take(0) =~= Seq::<u8>::empty());
        lemma_digit_run(w, 0);
    }
}

/// Blanks between the key of the time and the number make no difference.
pub proof fn blanks_before_the_time_do_not_matter(
    pre: Seq<u8>,
    n: nat,
    digits: Seq<u8>,
    post: Seq<u8>,
)
    requires
        first_at(
            pre + encode_utf8("\"time\":"@) + Seq::new(n, |i: int| 32u8) + digits + post,
            encode_utf8("\"time\":"@),
            pre.len() as int,
        ),
        digits.len() > 0,
        all_digits(digits),
        post.len() > 0 ==> !is_digit(post[0]),
    ensures
        message_time(
            pre + encode_utf8("\"time\":"@) + Seq::new(n, |i: int| 32u8) + digits + post,
        ) == if digits_value(digits) <= u64::MAX {
            Some(digits_value(digits) as u64)
        } else {
            None
        },
{
    let blank = Seq::new(n, |i: int| 32u8);
    let s = pre + time_key() + blank + digits + post;
    let w = digits + post;
    let v = blank + w;
    lemma_found_at(s, time_key(), pre.len() as int);
    assert(s.skip(pre.len() as int + time_key().len()) =~= v);
    assert(is_digit(digits[0]));
    lemma_skip_blanks(v, n);
    assert(v.skip(n as int) =~= w);
    assert(w.take(digits.len() as int) =~= digits);
    lemma_digit_run(w, digits.len());
}

/// The request for a coin names that coin.
pub proof fn a_subscription_names_its_coin(coin: Seq<char>)
    ensures
        ("{\"method\":\"subscribe\",\"subscription\":{\"type\":\"bbo\",\"coin\":\""@
            + coin).is_prefix_of(subscription(coin)),
        subscription(coin).len() == ("{\"method\":\"subscribe\",\"subscription\":{\"type\":\"bbo\",\"coin\":\""@
            + coin).len() + 3,
        subscription(coin).skip(subscription(coin).len() - 3) == "\"}}"@,
{
    reveal_strlit("\"}}");
    assert(subscription(coin).skip(subscription(coin).len() - 3) =~= "\"}}"@);
}

/// An event shows what it holds.
pub proof fn an_event_shows_what_it_holds(
    feed: usize,
    time_ms: u64,
    local_ns: u64,
    text: String,
    reason: String,
)
    ensures
        (Event::Sample { feed, time_ms, local_ns, text })@ == EventView::Sample(
            feed,
            time_ms,
            local_ns,
            text@,
        ),
        (Event::Subscribed { feed })@ == EventView::Subscribed(feed),
        (Event::Disconnect { feed })@ == EventView::Disconnect(feed),
        (Event::Unavailable { feed, reason })@ == EventView::Unavailable(feed, reason@),
        (Event::Sample { feed, time_ms, local_ns, text }).of_feed() == feed,
        (Event::Subscribed { feed }).of_feed() == feed,
        (Event::Disconnect { feed }).of_feed() == feed,
        (Event::Unavailable { feed, reason }).of_feed() == feed,
{
}

/// A ping that cannot be sent is told with its cause: a session that is subscribed is lost,
/// another fails.
pub proof fn a_failed_ping_is_told(cause: Seq<char>)
    ensures
        (Session { subscribed: true }).ping_failed(cause) == EndView::Lost(
            "ping send failed: "@ + cause,
        ),
        (Session { subscribed: false }).ping_failed(cause) == EndView::Failed(
            "ping send failed: "@ + cause,
        ),
{
}

} // verus!
