use plotter::event_loop::{on_event, FrameAction, FrameEvent, LoopState};

#[test]
fn running_loop_actions() {
    assert_eq!(
        on_event(LoopState::Running, FrameEvent::Tick),
        (LoopState::Running, FrameAction::Update)
    );
    assert_eq!(
        on_event(LoopState::Running, FrameEvent::RedrawRequested),
        (LoopState::Running, FrameAction::Render)
    );
    assert_eq!(
        on_event(LoopState::Running, FrameEvent::Other),
        (LoopState::Running, FrameAction::Nothing)
    );
}

#[test]
fn only_own_window_close_exits() {
    assert_eq!(
        on_event(LoopState::Running, FrameEvent::CloseRequested { own_window: false }),
        (LoopState::Running, FrameAction::Nothing)
    );
    assert_eq!(
        on_event(LoopState::Running, FrameEvent::CloseRequested { own_window: true }),
        (LoopState::Closing, FrameAction::Exit)
    );
}

#[test]
fn closing_ignores_everything() {
    for event in [
        FrameEvent::Tick,
        FrameEvent::RedrawRequested,
        FrameEvent::Other,
        FrameEvent::CloseRequested { own_window: true },
    ] {
        assert_eq!(
            on_event(LoopState::Closing, event),
            (LoopState::Closing, FrameAction::Nothing)
        );
    }
}
