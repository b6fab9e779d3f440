use audio_cascade::event_loop::{action_for, LoopAction, LoopEvent};

#[test]
fn events_map_to_actions() {
    assert_eq!(action_for(LoopEvent::CloseRequested), LoopAction::Exit);
    assert_eq!(
        action_for(LoopEvent::Resized { width: 1600, height: 800 }),
        LoopAction::ResizeSurface { width: 1600, height: 800 }
    );
    assert_eq!(action_for(LoopEvent::RedrawRequested), LoopAction::Redraw);
    assert_eq!(action_for(LoopEvent::EventsCleared), LoopAction::RequestRedraw);
    assert_eq!(action_for(LoopEvent::Other), LoopAction::Continue);
}
