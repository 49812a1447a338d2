//! The decisions of the thumbnail endpoint, as a state machine: the caller
//! performs each action (an inspection of the source file, reading a stored thumbnail,
//! generating one, writing it, running the frame extractor) and reports the
//! outcome back as the next event.

use vstd::prelude::*;

verus! {

/// What inspecting the requested source file found.
#[derive(Clone, Copy, Debug, PartialEq, Eq, Structural)]
pub enum SourceStatus {
    /// The inspection failed (for instance, nothing is there).
    Missing,
    /// A regular file.
    File,
    /// Something that exists and is not a regular file (a directory, ...).
    NotFile,
}

/// Where the endpoint stands.
#[derive(Clone, Copy, Debug, PartialEq, Eq, Structural)]
pub enum ThumbnailState {
    AwaitSource,
    AwaitCache,
    AwaitGeneration,
    AwaitWrite,
    AwaitExtractor,
    Finished,
}

/// The outcome of the last action, reported by the caller.
#[derive(Clone, Copy, Debug, PartialEq, Eq, Structural)]
pub enum ThumbnailEvent {
    /// Result of inspecting the source file.
    Source(SourceStatus),
    /// Whether a stored thumbnail could be opened.
    CacheOpened(bool),
    /// Whether an in-process thumbnail could be generated.
    Generated(bool),
    /// Whether the generated thumbnail could be stored.
    Written(bool),
    /// Whether the frame extractor succeeded (and stored a thumbnail).
    Extracted(bool),
}

/// What the caller is to do next.
#[derive(Clone, Copy, Debug, PartialEq, Eq, Structural)]
pub enum ThumbnailAction {
    /// Inspect the source file.
    InspectSource,
    /// Try to open the stored thumbnail.
    OpenCache,
    /// Generate a thumbnail in process.
    GenerateImage,
    /// Store the generated thumbnail.
    WriteCache,
    /// Run the frame extractor, which stores its thumbnail itself.
    RunExtractor,
    /// Answer "not found".
    RespondNotFound,
    /// Answer with the stored thumbnail that was opened.
    RespondCached,
    /// Open the thumbnail that was just stored and answer with it.
    RespondStored,
    /// Answer with the generated bytes held in memory.
    RespondGenerated,
    /// Redirect to the broken-image picture.
    RespondBrokenImage,
}

/// The actions that answer the request and end the exchange.
pub open spec fn is_response(a: ThumbnailAction) -> bool {
    match a {
        ThumbnailAction::RespondNotFound
        | ThumbnailAction::RespondCached
        | ThumbnailAction::RespondStored
        | ThumbnailAction::RespondGenerated
        | ThumbnailAction::RespondBrokenImage => true,
        _ => false,
    }
}

/// `action` is what the caller does while the machine waits in `state`
/// (the answers end the exchange).
pub open spec fn awaits(state: ThumbnailState, action: ThumbnailAction) -> bool {
    match state {
        ThumbnailState::AwaitSource => action == ThumbnailAction::InspectSource,
        ThumbnailState::AwaitCache => action == ThumbnailAction::OpenCache,
        ThumbnailState::AwaitGeneration => action == ThumbnailAction::GenerateImage,
        ThumbnailState::AwaitWrite => action == ThumbnailAction::WriteCache,
        ThumbnailState::AwaitExtractor => action == ThumbnailAction::RunExtractor,
        ThumbnailState::Finished => is_response(action),
    }
}

/// The event that reports the outcome of what `state` waits for.
pub open spec fn event_fits(state: ThumbnailState, event: ThumbnailEvent) -> bool {
    match state {
        ThumbnailState::AwaitSource => event is Source,
        ThumbnailState::AwaitCache => event is CacheOpened,
        ThumbnailState::AwaitGeneration => event is Generated,
        ThumbnailState::AwaitWrite => event is Written,
        ThumbnailState::AwaitExtractor => event is Extracted,
        ThumbnailState::Finished => false,
    }
}

/// One transition: a source that exists and is not a regular file is not
/// found; otherwise a stored thumbnail is served when it opens; otherwise one
/// is generated in process and stored (served from memory when storing fails);
/// when in-process generation fails, the frame extractor is run, and its
/// failure is answered with the broken-image picture.
pub open spec fn thumbnail_transition(state: ThumbnailState, event: ThumbnailEvent) -> (
    ThumbnailState,
    ThumbnailAction,
) {
    match event {
        ThumbnailEvent::Source(SourceStatus::NotFile) => (
            ThumbnailState::Finished,
            ThumbnailAction::RespondNotFound,
        ),
        ThumbnailEvent::Source(_) => (ThumbnailState::AwaitCache, ThumbnailAction::OpenCache),
        ThumbnailEvent::CacheOpened(true) => (
            ThumbnailState::Finished,
            ThumbnailAction::RespondCached,
        ),
        ThumbnailEvent::CacheOpened(false) => (
            ThumbnailState::AwaitGeneration,
            ThumbnailAction::GenerateImage,
        ),
        ThumbnailEvent::Generated(true) => (ThumbnailState::AwaitWrite, ThumbnailAction::WriteCache),
        ThumbnailEvent::Generated(false) => (
            ThumbnailState::AwaitExtractor,
            ThumbnailAction::RunExtractor,
        ),
        ThumbnailEvent::Written(true) => (ThumbnailState::Finished, ThumbnailAction::RespondStored),
        ThumbnailEvent::Written(false) => (
            ThumbnailState::Finished,
            ThumbnailAction::RespondGenerated,
        ),
        ThumbnailEvent::Extracted(true) => (
            ThumbnailState::Finished,
            ThumbnailAction::RespondStored,
        ),
        ThumbnailEvent::Extracted(false) => (
            ThumbnailState::Finished,
            ThumbnailAction::RespondBrokenImage,
        ),
    }
}

/// The first step: inspect the source file.
pub fn thumbnail_begin() -> (r: (ThumbnailState, ThumbnailAction))
    ensures
        r == (ThumbnailState::AwaitSource, ThumbnailAction::InspectSource),
        awaits(r.0, r.1),
{
    (ThumbnailState::AwaitSource, ThumbnailAction::InspectSource)
}

/// The next state and action after `event`, the outcome of what `state`
/// waited for.
pub fn thumbnail_step(state: ThumbnailState, event: ThumbnailEvent) -> (r: (
    ThumbnailState,
    ThumbnailAction,
))
    requires
        event_fits(state, event),
    ensures
        r == thumbnail_transition(state, event),
        awaits(r.0, r.1),
{
    match event {
        ThumbnailEvent::Source(SourceStatus::NotFile) => (
            ThumbnailState::Finished,
            ThumbnailAction::RespondNotFound,
        ),
        ThumbnailEvent::Source(_) => (ThumbnailState::AwaitCache, ThumbnailAction::OpenCache),
        ThumbnailEvent::CacheOpened(opened) => {
            if opened {
                (ThumbnailState::Finished, ThumbnailAction::RespondCached)
            } else {
                (ThumbnailState::AwaitGeneration, ThumbnailAction::GenerateImage)
            }
        },
        ThumbnailEvent::Generated(generated) => {
            if generated {
                (ThumbnailState::AwaitWrite, ThumbnailAction::WriteCache)
            } else {
                (ThumbnailState::AwaitExtractor, ThumbnailAction::RunExtractor)
            }
        },
        ThumbnailEvent::Written(written) => {
            if written {
                (ThumbnailState::Finished, ThumbnailAction::RespondStored)
            } else {
                (ThumbnailState::Finished, ThumbnailAction::RespondGenerated)
            }
        },
        ThumbnailEvent::Extracted(extracted) => {
            if extracted {
                (ThumbnailState::Finished, ThumbnailAction::RespondStored)
            } else {
                (ThumbnailState::Finished, ThumbnailAction::RespondBrokenImage)
            }
        },
    }
}

/// The outcomes that the outside world would report to each action.
pub struct ThumbnailOutcomes {
    pub source: SourceStatus,
    pub cached: bool,
    pub generated: bool,
    pub written: bool,
    pub extracted: bool,
}

/// The answer of the endpoint, stated directly from the outcomes.
pub open spec fn thumbnail_answer(o: ThumbnailOutcomes) -> ThumbnailAction {
    if o.source == SourceStatus::NotFile {
        ThumbnailAction::RespondNotFound
    } else if o.cached {
        ThumbnailAction::RespondCached
    } else if o.generated {
        if o.written {
            ThumbnailAction::RespondStored
        } else {
            ThumbnailAction::RespondGenerated
        }
    } else if o.extracted {
        ThumbnailAction::RespondStored
    } else {
        ThumbnailAction::RespondBrokenImage
    }
}

/// The event that `o` reports while the machine waits in `state`.
pub open spec fn reported_event(state: ThumbnailState, o: ThumbnailOutcomes) -> ThumbnailEvent {
    match state {
        ThumbnailState::AwaitSource => ThumbnailEvent::Source(o.source),
        ThumbnailState::AwaitCache => ThumbnailEvent::CacheOpened(o.cached),
        ThumbnailState::AwaitGeneration => ThumbnailEvent::Generated(o.generated),
        ThumbnailState::AwaitWrite => ThumbnailEvent::Written(o.written),
        _ => ThumbnailEvent::Extracted(o.extracted),
    }
}

/// The machine driven from `state` by the outcomes `o` for at most `steps`
/// transitions: the state it reaches and the last action it asked for.
pub open spec fn drive(
    state: ThumbnailState,
    action: ThumbnailAction,
    o: ThumbnailOutcomes,
    steps: nat,
) -> (ThumbnailState, ThumbnailAction)
    decreases steps,
{
    if steps == 0 || state == ThumbnailState::Finished {
        (state, action)
    } else {
        let next = thumbnail_transition(state, reported_event(state, o));
        drive(next.0, next.1, o, (steps - 1) as nat)
    }
}

/// Law: from its first step, whatever the outside world reports, the machine
/// finishes within four transitions, and its answer is the one that
/// [`thumbnail_answer`] states.
pub proof fn law_thumbnail_answer(o: ThumbnailOutcomes)
    ensures
        drive(ThumbnailState::AwaitSource, ThumbnailAction::InspectSource, o, 4) == (
            ThumbnailState::Finished,
            thumbnail_answer(o),
        ),
{
    reveal_with_fuel(drive, 5);
}

} // verus!
