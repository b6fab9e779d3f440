//! The decisions of the window's event loop.
//!
//! The loop itself (waiting for window events, capturing audio, presenting
//! the framebuffer) is the caller's; for each event it asks here what to do.
use vstd::prelude::*;

verus! {

/// The window events the display reacts to.
#[derive(Clone, Copy, Debug, PartialEq, Eq, Structural)]
pub enum LoopEvent {
    /// The user asked to close the window.
    CloseRequested,
    /// The window's surface changed to `width` × `height` physical pixels.
    Resized { width: u32, height: u32 },
    /// The window is to be redrawn.
    RedrawRequested,
    /// All pending events were handled.
    EventsCleared,
    /// Any other event.
    Other,
}

/// What the loop does in answer to an event.
#[derive(Clone, Copy, Debug, PartialEq, Eq, Structural)]
pub enum LoopAction {
    /// Leave the loop.
    Exit,
    /// Resize the drawing surface.
    ResizeSurface { width: u32, height: u32 },
    /// Take in the captured audio, analyse it and draw a frame.
    Redraw,
    /// Ask the window for a redraw.
    RequestRedraw,
    /// Keep polling.
    Continue,
}

/// The action for an event.
pub open spec fn action_spec(event: LoopEvent) -> LoopAction {
    match event {
        LoopEvent::CloseRequested => LoopAction::Exit,
        LoopEvent::Resized { width, height } => LoopAction::ResizeSurface { width, height },
        LoopEvent::RedrawRequested => LoopAction::Redraw,
        LoopEvent::EventsCleared => LoopAction::RequestRedraw,
        LoopEvent::Other => LoopAction::Continue,
    }
}

/// Closing exits, a resize resizes the surface to exactly the new width and
/// height, a redraw request draws, the end of pending events asks for a
/// redraw, and anything else keeps polling.
pub proof fn lemma_event_actions(event: LoopEvent)
    ensures
        event == LoopEvent::CloseRequested ==> action_spec(event) == LoopAction::Exit,
        event matches LoopEvent::Resized { width, height } ==> action_spec(event) == (
        LoopAction::ResizeSurface { width, height }),
        event == LoopEvent::RedrawRequested ==> action_spec(event) == LoopAction::Redraw,
        event == LoopEvent::EventsCleared ==> action_spec(event) == LoopAction::RequestRedraw,
        event == LoopEvent::Other ==> action_spec(event) == LoopAction::Continue,
{
}

/// Decides what the loop does with an event.
pub fn action_for(event: LoopEvent) -> (action: LoopAction)
    ensures
        action == action_spec(event),
        event matches LoopEvent::Resized { width, height } ==> action == (LoopAction::ResizeSurface {
            width,
            height,
        }),
{
    proof {
        lemma_event_actions(event);
    }
    match event {
        LoopEvent::CloseRequested => LoopAction::Exit,
        LoopEvent::Resized { width, height } => LoopAction::ResizeSurface { width, height },
        LoopEvent::RedrawRequested => LoopAction::Redraw,
        LoopEvent::EventsCleared => LoopAction::RequestRedraw,
        LoopEvent::Other => LoopAction::Continue,
    }
}

} // verus!
