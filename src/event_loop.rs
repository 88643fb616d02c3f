use vstd::prelude::*;

verus! {

/// Whether the program keeps running; `Closing` is final.
#[derive(Clone, Copy, Debug, PartialEq, Eq, Structural)]
pub enum LoopState {
    Running,
    Closing,
}

/// What the host hands the frame loop.
#[derive(Clone, Copy, Debug, PartialEq, Eq, Structural)]
pub enum FrameEvent {
    /// A window asked to close; `own_window` tells whether it is this program's.
    CloseRequested { own_window: bool },
    /// The host is idle: time for the next state update.
    Tick,
    /// The window needs drawing.
    RedrawRequested,
    /// Any other input, which the loop ignores.
    Other,
}

/// What the frame loop asks the host to do.
#[derive(Clone, Copy, Debug, PartialEq, Eq, Structural)]
pub enum FrameAction {
    /// Stop the loop.
    Exit,
    /// Advance the simulation, then ask for a redraw.
    Update,
    /// Clear the frame, draw every element and present the frame.
    Render,
    /// Do nothing.
    Nothing,
}

/// The state after `event` in `state`.
pub open spec fn next_state(state: LoopState, event: FrameEvent) -> LoopState {
    match (state, event) {
        (LoopState::Running, FrameEvent::CloseRequested { own_window: true }) => LoopState::Closing,
        _ => state,
    }
}

/// The action that `event` calls for in `state`.
pub open spec fn action_for(state: LoopState, event: FrameEvent) -> FrameAction {
    match state {
        LoopState::Closing => FrameAction::Nothing,
        LoopState::Running => match event {
            FrameEvent::CloseRequested { own_window } => if own_window {
                FrameAction::Exit
            } else {
                FrameAction::Nothing
            },
            FrameEvent::Tick => FrameAction::Update,
            FrameEvent::RedrawRequested => FrameAction::Render,
            FrameEvent::Other => FrameAction::Nothing,
        },
    }
}

/// One decision of the frame loop: only a close request of this program's own
/// window ends it; a tick updates, a redraw request renders, and the rest is
/// ignored, as is everything once the loop is closing.
pub fn on_event(state: LoopState, event: FrameEvent) -> (r: (LoopState, FrameAction))
    ensures
        r.0 == next_state(state, event),
        r.1 == action_for(state, event),
{
    match state {
        LoopState::Closing => (LoopState::Closing, FrameAction::Nothing),
        LoopState::Running => match event {
            FrameEvent::CloseRequested { own_window } => {
                if own_window {
                    (LoopState::Closing, FrameAction::Exit)
                } else {
                    (LoopState::Running, FrameAction::Nothing)
                }
            },
            FrameEvent::Tick => (LoopState::Running, FrameAction::Update),
            FrameEvent::RedrawRequested => (LoopState::Running, FrameAction::Render),
            FrameEvent::Other => (LoopState::Running, FrameAction::Nothing),
        },
    }
}

/// `Closing` is final: no event leads out of it.
pub proof fn lemma_closing_is_final(event: FrameEvent)
    ensures
        next_state(LoopState::Closing, event) == LoopState::Closing,
        action_for(LoopState::Closing, event) == FrameAction::Nothing,
{
}

} // verus!
