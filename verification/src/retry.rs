//! When a feed connects again, and when it gives up.

use vstd::arithmetic::power2::*;
use vstd::prelude::*;

use crate::feed::{Event, EventView};
use crate::session::{end_view, EndView, SessionEnd};

verus! {

/// How often a feed that has never been connected may fail.
pub const INITIAL_CONNECT_ATTEMPTS: u32 = 3;

/// The pause between these attempts.
pub const INITIAL_PAUSE_SECS: u64 = 2;

/// The pause after a lost connection.
pub const MIN_BACKOFF_SECS: u64 = 1;

/// The longest pause before a connection is tried again.
pub const MAX_BACKOFF_SECS: u64 = 30;

/// What a feed does after a session: it reports `event`, where there is one, and then
/// sleeps for `sleep_secs` and connects again; without `sleep_secs` it is over. A feed
/// whose report reaches nobody is over too.
#[derive(Debug)]
pub struct Step {
    pub event: Option<Event>,
    pub sleep_secs: Option<u64>,
}

/// What a feed does after a session.
pub struct StepView {
    pub event: Option<EventView>,
    pub sleep_secs: Option<u64>,
}

impl View for Step {
    type V = StepView;

    open spec fn view(&self) -> StepView {
        StepView {
            event: match self.event {
                Some(e) => Some(e@),
                None => None,
            },
            sleep_secs: self.sleep_secs,
        }
    }
}

/// How the attempts of a feed to connect have gone so far.
#[derive(Clone, Copy, Debug, PartialEq, Eq, Structural)]
pub struct Retry {
    /// a session was subscribed and then lost
    pub connected_once: bool,
    /// the sessions that failed before that
    pub initial_failures: u32,
    /// the last pause after a session, in seconds
    pub backoff_secs: u64,
}

impl Retry {
    /// The feed has not given up, and the pause is within its bounds.
    pub open spec fn wf(self) -> bool {
        &&& self.initial_failures < INITIAL_CONNECT_ATTEMPTS
        &&& MIN_BACKOFF_SECS <= self.backoff_secs <= MAX_BACKOFF_SECS
    }

    /// A feed that has not tried yet.
    pub open spec fn fresh() -> Self {
        Retry { connected_once: false, initial_failures: 0, backoff_secs: MIN_BACKOFF_SECS }
    }

    /// The attempts after one more session.
    pub open spec fn after(self, end: EndView) -> Self {
        match end {
            EndView::Stopped => self,
            EndView::Lost(_) => Retry {
                connected_once: true,
                backoff_secs: MIN_BACKOFF_SECS,
                ..self
            },
            EndView::Failed(_) => if self.connected_once {
                Retry {
                    backoff_secs: if 2 * self.backoff_secs <= MAX_BACKOFF_SECS {
                        (2 * self.backoff_secs) as u64
                    } else {
                        MAX_BACKOFF_SECS
                    },
                    ..self
                }
            } else {
                Retry { initial_failures: (self.initial_failures + 1) as u32, ..self }
            },
        }
    }

    /// What the feed does after a session.
    pub open spec fn step(self, feed: usize, end: EndView) -> StepView {
        match end {
            EndView::Stopped => StepView { event: None, sleep_secs: None },
            EndView::Lost(_) => StepView {
                event: Some(EventView::Disconnect(feed)),
                sleep_secs: Some(MIN_BACKOFF_SECS),
            },
            EndView::Failed(reason) => if self.connected_once {
                StepView { event: None, sleep_secs: Some(self.after(end).backoff_secs) }
            } else if self.initial_failures + 1 >= INITIAL_CONNECT_ATTEMPTS {
                StepView {
                    event: Some(EventView::Unavailable(feed, reason)),
                    sleep_secs: None,
                }
            } else {
                StepView { event: None, sleep_secs: Some(INITIAL_PAUSE_SECS) }
            },
        }
    }

    /// The attempts after several sessions.
    pub open spec fn after_all(self, ends: Seq<EndView>) -> Self
        decreases ends.len(),
    {
        if ends.len() == 0 {
            self
        } else {
            self.after_all(ends.drop_last()).after(ends.last())
        }
    }

    /// A feed that has not tried yet.
    pub fn new() -> (r: Self)
        ensures
            r == Retry::fresh(),
            r.wf(),
    {
        Retry { connected_once: false, initial_failures: 0, backoff_secs: MIN_BACKOFF_SECS }
    }

    /// Takes in the end of a session and says what the feed does next.
    pub fn on_end(&mut self, feed: usize, end: Result<SessionEnd, String>) -> (step: Step)
        requires
            old(self).wf(),
        ensures
            *final(self) == old(self).after(end_view(end)),
            step@ == old(self).step(feed, end_view(end)),
            step.sleep_secs is Some ==> final(self).wf(),
    {
        match end {
            Ok(SessionEnd::Stopped) => Step { event: None, sleep_secs: None },
            Ok(SessionEnd::Lost(_)) => {
                self.connected_once = true;
                self.backoff_secs = MIN_BACKOFF_SECS;
                Step {
                    event: Some(Event::Disconnect { feed }),
                    sleep_secs: Some(self.backoff_secs),
                }
            },
            Err(reason) => {
                if self.connected_once {
                    let doubled: u64 = self.backoff_secs * 2;
                    self.backoff_secs = if doubled <= MAX_BACKOFF_SECS {
                        doubled
                    } else {
                        MAX_BACKOFF_SECS
                    };
                    Step { event: None, sleep_secs: Some(self.backoff_secs) }
                } else {
                    self.initial_failures = self.initial_failures + 1;
                    if self.initial_failures >= INITIAL_CONNECT_ATTEMPTS {
                        Step {
                            event: Some(Event::Unavailable { feed, reason }),
                            sleep_secs: None,
                        }
                    } else {
                        Step { event: None, sleep_secs: Some(INITIAL_PAUSE_SECS) }
                    }
                }
            },
        }
    }
}

/// All sessions failed.
pub open spec fn all_failed(ends: Seq<EndView>) -> bool {
    forall|i: int| 0 <= i < ends.len() ==> (#[trigger] ends[i]) is Failed
}

/// The smaller of two numbers.
pub open spec fn at_most(a: nat, b: nat) -> nat {
    if a <= b {
        a
    } else {
        b
    }
}

/// After a lost connection the pause doubles with each failure to connect again, from
/// one second up to thirty: the pause after the k-th failure in a row is the smaller of
/// 2^k and 30 seconds, and the feed never gives up.
pub proof fn pauses_double_up_to_the_limit(
    run: Retry,
    feed: usize,
    lost: Seq<char>,
    failures: Seq<EndView>,
    last: EndView,
)
    requires
        all_failed(failures.push(last)),
    ensures
        ({
            let run = run.after(EndView::Lost(lost)).after_all(failures);
            let pause = at_most(pow2(failures.len() + 1), MAX_BACKOFF_SECS as nat);
            run.step(feed, last) == (StepView { event: None, sleep_secs: Some(pause as u64) })
        }),
{
    assert(all_failed(failures)) by {
        assert forall|i: int| 0 <= i < failures.len() implies (#[trigger] failures[i]) is Failed by {
            assert(failures.push(last)[i] is Failed);
        }
    }
    lemma_pause(run, lost, failures.push(last));
    lemma_pause(run, lost, failures);
    assert(failures.push(last).drop_last() =~= failures);
    assert(failures.push(last)[failures.len() as int] is Failed);
}

proof fn lemma_pause(run: Retry, lost: Seq<char>, failures: Seq<EndView>)
    requires
        all_failed(failures),
    ensures
        ({
            let r = run.after(EndView::Lost(lost)).after_all(failures);
            &&& r.connected_once
            &&& r.backoff_secs == at_most(pow2(failures.len()), MAX_BACKOFF_SECS as nat)
        }),
    decreases failures.len(),
{
    if failures.len() == 0 {
        lemma2_to64();
    } else {
        assert(all_failed(failures.drop_last())) by {
            assert forall|i: int| 0 <= i < failures.len() - 1 implies (
            #[trigger] failures.drop_last()[i]) is Failed by {
                assert(failures[i] is Failed);
            }
        }
        lemma_pause(run, lost, failures.drop_last());
        lemma_pow2_unfold(failures.len());
        assert(failures[failures.len() - 1] is Failed);
    }
}

/// A feed that never got through gives up with its third failure and not before, and
/// the reason it gives is that of the last failure.
pub proof fn gives_up_with_the_third_failure(feed: usize, failures: Seq<EndView>, last: EndView)
    requires
        all_failed(failures.push(last)),
        failures.len() < INITIAL_CONNECT_ATTEMPTS,
    ensures
        ({
            let step = Retry::fresh().after_all(failures).step(feed, last);
            if failures.len() + 1 == INITIAL_CONNECT_ATTEMPTS {
                step == (StepView {
                    event: Some(EventView::Unavailable(feed, last->Failed_0)),
                    sleep_secs: None,
                })
            } else {
                step == (StepView { event: None, sleep_secs: Some(INITIAL_PAUSE_SECS) })
            }
        }),
{
    assert(all_failed(failures)) by {
        assert forall|i: int| 0 <= i < failures.len() implies (#[trigger] failures[i]) is Failed by {
            assert(failures.push(last)[i] is Failed);
        }
    }
    lemma_initial_failures(failures);
    assert(failures.push(last)[failures.len() as int] is Failed);
}

proof fn lemma_initial_failures(failures: Seq<EndView>)
    requires
        all_failed(failures),
        failures.len() <= INITIAL_CONNECT_ATTEMPTS,
    ensures
        ({
            let r = Retry::fresh().after_all(failures);
            !r.connected_once && r.initial_failures == failures.len()
        }),
    decreases failures.len(),
{
    if failures.len() > 0 {
        assert forall|i: int| 0 <= i < failures.len() - 1 implies (
        #[trigger] failures.drop_last()[i]) is Failed by {
            assert(failures[i] is Failed);
        }
        lemma_initial_failures(failures.drop_last());
        assert(failures[failures.len() - 1] is Failed);
    }
}

/// A feed that has once been connected is never declared unavailable, and only a
/// request stops it.
pub proof fn never_gives_up_once_connected(
    run: Retry,
    feed: usize,
    ends: Seq<EndView>,
    last: EndView,
)
    requires
        run.connected_once,
    ensures
        !(run.after_all(ends).step(feed, last).event matches Some(EventView::Unavailable(_, _))),
        run.after_all(ends).step(feed, last).sleep_secs is None <==> last is Stopped,
{
    lemma_stays_connected(run, ends);
}

proof fn lemma_stays_connected(run: Retry, ends: Seq<EndView>)
    requires
        run.connected_once,
    ensures
        run.after_all(ends).connected_once,
    decreases ends.len(),
{
    if ends.len() > 0 {
        lemma_stays_connected(run, ends.drop_last());
    }
}

/// The pause is never shorter than one second nor longer than thirty.
pub proof fn pauses_stay_within_bounds(feed: usize, ends: Seq<EndView>, last: EndView)
    ensures
        match Retry::fresh().after_all(ends).step(feed, last).sleep_secs {
            Some(secs) => MIN_BACKOFF_SECS <= secs <= MAX_BACKOFF_SECS,
            None => true,
        },
{
    lemma_backoff_bounds(ends.push(last));
    assert(ends.push(last).drop_last() =~= ends);
}

proof fn lemma_backoff_bounds(ends: Seq<EndView>)
    ensures
        MIN_BACKOFF_SECS <= Retry::fresh().after_all(ends).backoff_secs <= MAX_BACKOFF_SECS,
    decreases ends.len(),
{
    if ends.len() > 0 {
        lemma_backoff_bounds(ends.drop_last());
    }
}

/// A lost connection is reported and tried again after one second, and a session that was
/// stopped ends the feed without a word.
pub proof fn a_lost_connection_is_reported(run: Retry, feed: usize, reason: Seq<char>)
    ensures
        run.step(feed, EndView::Lost(reason)) == (StepView {
            event: Some(EventView::Disconnect(feed)),
            sleep_secs: Some(1),
        }),
        run.after(EndView::Lost(reason)).connected_once,
        run.step(feed, EndView::Stopped) == (StepView { event: None, sleep_secs: None }),
{
}

/// A step shows what the feed does.
pub proof fn a_step_shows_what_is_done(event: Event, secs: u64)
    ensures
        (Step { event: Some(event), sleep_secs: Some(secs) })@ == (StepView {
            event: Some(event@),
            sleep_secs: Some(secs),
        }),
        (Step { event: None, sleep_secs: None })@ == (StepView { event: None, sleep_secs: None }),
{
}

} // verus!
