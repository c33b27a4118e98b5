//! When a light path ends, and in what.
//!
//! A path starts with a budget of bounces. While the budget lasts, the
//! current ray is traced: it misses everything and the path ends in the
//! background, or it is absorbed and the path ends in black, or it is
//! scattered and the path goes on with one bounce less. A path whose budget
//! is used up ends in black without tracing anything. Cutting paths off like
//! this loses a little light; it is the price of a bound on the work.
//!
//! The colours along the path are the caller's business. Here is only the
//! decision how the path goes on, as a step function that the caller drives,
//! and the proof that it agrees with the recursive definition and stops
//! within the budget.

use vstd::prelude::*;

verus! {

/// What tracing one ray of the path came to.
#[derive(Debug, Clone, Copy, PartialEq, Eq, Structural)]
pub enum PathEvent {
    /// The ray hit nothing.
    Miss,
    /// The ray hit a surface that took it in.
    Absorbed,
    /// The ray hit a surface that sent it on.
    Scattered,
}

/// What a path ends in.
#[derive(Debug, Clone, Copy, PartialEq, Eq, Structural)]
pub enum PathEnd {
    /// No light comes along the path.
    Black,
    /// The path leaves the scene: the background's light comes along it,
    /// dimmed by every bounce on the way.
    Background,
}

/// Where a path stands.
#[derive(Debug, Clone, Copy, PartialEq, Eq, Structural)]
pub enum PathState {
    /// The current ray is to be traced; `depth` bounces are left, at
    /// least one.
    Tracing { depth: u32 },
    /// The path has ended.
    Done(PathEnd),
}

/// What a path of `depth` bounces ends in when tracing its rays gives
/// `events`, one after the other: the recursive definition.
///
/// Events that the path does not live to see play no part. A path that
/// runs out of events before it ends counts as leaving the scene.
pub open spec fn path_end(depth: nat, events: Seq<PathEvent>) -> PathEnd
    decreases depth,
{
    if depth == 0 {
        PathEnd::Black
    } else if events.len() == 0 {
        PathEnd::Background
    } else {
        match events.first() {
            PathEvent::Miss => PathEnd::Background,
            PathEvent::Absorbed => PathEnd::Black,
            PathEvent::Scattered => path_end((depth - 1) as nat, events.drop_first()),
        }
    }
}

/// The state in which a path of `depth` bounces starts.
pub open spec fn initial(depth: u32) -> PathState {
    if depth == 0 {
        PathState::Done(PathEnd::Black)
    } else {
        PathState::Tracing { depth }
    }
}

/// The state that follows `state` when the traced ray came to `event`.
pub open spec fn next(state: PathState, event: PathEvent) -> PathState {
    match state {
        PathState::Done(end) => PathState::Done(end),
        PathState::Tracing { depth } => match event {
            PathEvent::Miss => PathState::Done(PathEnd::Background),
            PathEvent::Absorbed => PathState::Done(PathEnd::Black),
            PathEvent::Scattered => if depth <= 1 {
                PathState::Done(PathEnd::Black)
            } else {
                PathState::Tracing { depth: (depth - 1) as u32 }
            },
        },
    }
}

/// The state after a run of events.
pub open spec fn run(state: PathState, events: Seq<PathEvent>) -> PathState
    decreases events.len(),
{
    if events.len() == 0 {
        state
    } else {
        run(next(state, events.first()), events.drop_first())
    }
}

/// The number of events that a path of `depth` bounces lives to see.
pub open spec fn events_seen(depth: nat, events: Seq<PathEvent>) -> nat
    decreases depth,
{
    if depth == 0 || events.len() == 0 {
        0
    } else if events.first() == PathEvent::Scattered {
        1 + events_seen((depth - 1) as nat, events.drop_first())
    } else {
        1
    }
}

impl PathState {
    /// Whether the state is well formed: a path that is still tracing has
    /// a bounce left.
    pub open spec fn wf(self) -> bool {
        self matches PathState::Tracing { depth } ==> depth >= 1
    }

    /// The state in which a path of `max_depth` bounces starts.
    pub fn start(max_depth: u32) -> (state: Self)
        ensures
            state == initial(max_depth),
            state.wf(),
    {
        if max_depth == 0 {
            PathState::Done(PathEnd::Black)
        } else {
            PathState::Tracing { depth: max_depth }
        }
    }

    /// The state that follows when the ray just traced came to `event`.
    /// A path that has ended stays as it is.
    pub fn advance(self, event: PathEvent) -> (state: Self)
        ensures
            state == next(self, event),
            self.wf() ==> state.wf(),
    {
        match self {
            PathState::Done(end) => PathState::Done(end),
            PathState::Tracing { depth } => match event {
                PathEvent::Miss => PathState::Done(PathEnd::Background),
                PathEvent::Absorbed => PathState::Done(PathEnd::Black),
                PathEvent::Scattered => if depth <= 1 {
                    PathState::Done(PathEnd::Black)
                } else {
                    PathState::Tracing { depth: depth - 1 }
                },
            },
        }
    }

    /// What the path ended in, if it has ended.
    pub fn end(&self) -> (end: Option<PathEnd>)
        ensures
            end == match *self {
                PathState::Done(e) => Some(e),
                PathState::Tracing { .. } => None::<PathEnd>,
            },
    {
        match self {
            PathState::Done(e) => Some(*e),
            PathState::Tracing { .. } => None,
        }
    }

    /// The bounces that are left; none once the path has ended.
    pub fn depth(&self) -> (depth: u32)
        ensures
            depth == match *self {
                PathState::Done(_) => 0,
                PathState::Tracing { depth } => depth,
            },
    {
        match self {
            PathState::Done(_) => 0,
            PathState::Tracing { depth } => *depth,
        }
    }
}

/// A path that has ended stays ended, whatever follows.
pub proof fn lemma_done_is_final(end: PathEnd, events: Seq<PathEvent>)
    ensures
        run(PathState::Done(end), events) == PathState::Done(end),
    decreases events.len(),
{
    if events.len() > 0 {
        lemma_done_is_final(end, events.drop_first());
    }
}

/// Driving the step function gives what the recursive definition gives: a
/// path that has ended after a run of events has ended in `path_end`, and a
/// path that was given as many events as it has bounces has ended.
pub proof fn lemma_run_agrees_with_path_end(depth: u32, events: Seq<PathEvent>)
    ensures
        run(initial(depth), events) matches PathState::Done(end) ==> end == path_end(
            depth as nat,
            events,
        ),
        events.len() >= depth ==> run(initial(depth), events) is Done,
        run(initial(depth), events) matches PathState::Tracing { depth: left } ==> left
            == depth - events.len() && left >= 1,
    decreases events.len(),
{
    if depth == 0 {
        lemma_done_is_final(PathEnd::Black, events);
    } else if events.len() == 0 {
    } else {
        let rest = events.drop_first();
        match events.first() {
            PathEvent::Miss => {
                lemma_done_is_final(PathEnd::Background, rest);
            },
            PathEvent::Absorbed => {
                lemma_done_is_final(PathEnd::Black, rest);
            },
            PathEvent::Scattered => {
                assert(next(initial(depth), PathEvent::Scattered) == initial((depth - 1) as u32));
                lemma_run_agrees_with_path_end((depth - 1) as u32, rest);
            },
        }
    }
}

/// A path never sees more events than it has bounces, and after the events
/// it sees it has ended, unless the events ran out first.
pub proof fn lemma_path_stops_within_depth(depth: u32, events: Seq<PathEvent>)
    ensures
        events_seen(depth as nat, events) <= depth,
        events_seen(depth as nat, events) <= events.len(),
        events_seen(depth as nat, events) < events.len() ==> run(
            initial(depth),
            events.take(events_seen(depth as nat, events) as int),
        ) is Done,
    decreases depth,
{
    if depth == 0 {
        assert(events.take(0) =~= Seq::<PathEvent>::empty());
    } else if events.len() == 0 {
    } else {
        let rest = events.drop_first();
        let seen = events_seen(depth as nat, events);
        match events.first() {
            PathEvent::Scattered => {
                lemma_path_stops_within_depth((depth - 1) as u32, rest);
                let inner = events_seen((depth - 1) as nat, rest);
                let shown = events.take(seen as int);
                assert(shown.drop_first() =~= rest.take(inner as int));
                assert(shown.first() == PathEvent::Scattered);
                assert(next(initial(depth), PathEvent::Scattered) == initial((depth - 1) as u32));
                assert(run(initial(depth), shown) == run(
                    initial((depth - 1) as u32),
                    rest.take(inner as int),
                ));
            },
            _ => {
                let shown = events.take(1);
                assert(shown.drop_first() =~= Seq::<PathEvent>::empty());
                assert(shown.first() == events.first());
                assert(run(initial(depth), shown) == run(
                    next(initial(depth), events.first()),
                    shown.drop_first(),
                ));
                assert(next(initial(depth), events.first()) is Done);
            },
        }
    }
}

} // verus!
