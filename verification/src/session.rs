//! Sessions of a feed: what a message leads to, and how a session ends.

use vstd::prelude::*;

use crate::feed::{Event, EventView};

verus! {

/// How a session ended that could have gone on.
#[derive(Debug)]
pub enum SessionEnd {
    /// on request
    Stopped,
    /// because of a fault
    Lost(String),
}

/// How a session ended. `Failed` means that it died before it had delivered anything.
pub enum EndView {
    Stopped,
    Lost(Seq<char>),
    Failed(Seq<char>),
}

/// How a session ended.
pub open spec fn end_view(end: Result<SessionEnd, String>) -> EndView {
    match end {
        Ok(SessionEnd::Stopped) => EndView::Stopped,
        Ok(SessionEnd::Lost(reason)) => EndView::Lost(reason@),
        Err(reason) => EndView::Failed(reason@),
    }
}

/// What follows from a read: the feed reports `notice`, whether or not anyone
/// listens; it reports `sample`, and where nobody listens the session is stopped; and
/// the session ends where there is an `end`.
#[derive(Debug)]
pub struct Turn {
    pub notice: Option<Event>,
    pub sample: Option<Event>,
    pub end: Option<Result<SessionEnd, String>>,
}

/// What follows from a read.
pub struct TurnView {
    pub notice: Option<EventView>,
    pub sample: Option<EventView>,
    pub end: Option<EndView>,
}

impl View for Turn {
    type V = TurnView;

    open spec fn view(&self) -> TurnView {
        TurnView {
            notice: match self.notice {
                Some(e) => Some(e@),
                None => None,
            },
            sample: match self.sample {
                Some(e) => Some(e@),
                None => None,
            },
            end: match self.end {
                Some(e) => Some(end_view(e)),
                None => None,
            },
        }
    }
}

impl TurnView {
    /// Nothing follows.
    pub open spec fn nothing() -> Self {
        TurnView { notice: None, sample: None, end: None }
    }

    /// The session ends.
    pub open spec fn ended(end: EndView) -> Self {
        TurnView { notice: None, sample: None, end: Some(end) }
    }
}

impl Turn {
    /// Nothing follows.
    pub fn nothing() -> (t: Self)
        ensures
            t@ == TurnView::nothing(),
    {
        Turn { notice: None, sample: None, end: None }
    }

    /// The session ends.
    pub fn ended(end: Result<SessionEnd, String>) -> (t: Self)
        ensures
            t@ == TurnView::ended(end_view(end)),
    {
        Turn { notice: None, sample: None, end: Some(end) }
    }
}

/// A session ends as it says, and a turn shows what follows.
pub proof fn a_turn_shows_what_follows(
    reason: String,
    notice: Event,
    sample: Event,
    end: Result<SessionEnd, String>,
)
    ensures
        end_view(Ok(SessionEnd::Stopped)) == EndView::Stopped,
        end_view(Ok(SessionEnd::Lost(reason))) == EndView::Lost(reason@),
        end_view(Err(reason)) == EndView::Failed(reason@),
        (Turn { notice: Some(notice), sample: Some(sample), end: Some(end) })@ == (TurnView {
            notice: Some(notice@),
            sample: Some(sample@),
            end: Some(end_view(end)),
        }),
        (Turn { notice: None, sample: None, end: None })@ == (TurnView {
            notice: None,
            sample: None,
            end: None,
        }),
{
}

} // verus!
