//! Simulation and application events, and the mapping from key input to
//! events. The terminal front end reduces raw key presses to plain values
//! and hands them here, so the decision of what a key means lives with
//! the rest of the engine's rules.

use vstd::prelude::*;

verus! {

/// Anything the frame loop reacts to.
#[derive(PartialEq, Eq, Structural, Clone, Copy, Debug)]
pub enum Event {
    EngineEvent(EngineEvent),
    AppEvent(AppEvent),
}

/// Events that drive the simulation.
#[derive(PartialEq, Eq, Structural, Clone, Copy, Debug)]
pub enum EngineEvent {
    /// Advance the world state by `n` steps.
    Advance(usize),
}

/// Events that drive the application shell.
#[derive(PartialEq, Eq, Structural, Clone, Copy, Debug)]
pub enum AppEvent {
    CameraEvent(CameraEvent),
    /// Exit the application.
    Exit,
}

/// Camera motions.
#[derive(PartialEq, Eq, Structural, Clone, Copy, Debug)]
pub enum CameraEvent {
    MoveLeft,
    MoveDown,
    MoveUp,
    MoveRight,
    ZoomIn,
    ZoomOut,
    Reset,
}

/// Translate one key press to an event: `q` and Ctrl-C quit, `h`, `j`,
/// `k`, `l` pan, `J` and `K` zoom, `0` resets the view; every other key
/// does nothing.
pub fn translate_key(c: char, ctrl: bool) -> (r: Option<Event>)
    ensures
        r == if c == 'q' || (c == 'c' && ctrl) {
            Some(Event::AppEvent(AppEvent::Exit))
        } else if c == 'h' {
            Some(Event::AppEvent(AppEvent::CameraEvent(CameraEvent::MoveLeft)))
        } else if c == 'j' {
            Some(Event::AppEvent(AppEvent::CameraEvent(CameraEvent::MoveDown)))
        } else if c == 'k' {
            Some(Event::AppEvent(AppEvent::CameraEvent(CameraEvent::MoveUp)))
        } else if c == 'l' {
            Some(Event::AppEvent(AppEvent::CameraEvent(CameraEvent::MoveRight)))
        } else if c == 'K' {
            Some(Event::AppEvent(AppEvent::CameraEvent(CameraEvent::ZoomIn)))
        } else if c == 'J' {
            Some(Event::AppEvent(AppEvent::CameraEvent(CameraEvent::ZoomOut)))
        } else if c == '0' {
            Some(Event::AppEvent(AppEvent::CameraEvent(CameraEvent::Reset)))
        } else {
            None
        },
{
    if c == 'q' || (c == 'c' && ctrl) {
        Some(Event::AppEvent(AppEvent::Exit))
    } else if c == 'h' {
        Some(Event::AppEvent(AppEvent::CameraEvent(CameraEvent::MoveLeft)))
    } else if c == 'j' {
        Some(Event::AppEvent(AppEvent::CameraEvent(CameraEvent::MoveDown)))
    } else if c == 'k' {
        Some(Event::AppEvent(AppEvent::CameraEvent(CameraEvent::MoveUp)))
    } else if c == 'l' {
        Some(Event::AppEvent(AppEvent::CameraEvent(CameraEvent::MoveRight)))
    } else if c == 'K' {
        Some(Event::AppEvent(AppEvent::CameraEvent(CameraEvent::ZoomIn)))
    } else if c == 'J' {
        Some(Event::AppEvent(AppEvent::CameraEvent(CameraEvent::ZoomOut)))
    } else if c == '0' {
        Some(Event::AppEvent(AppEvent::CameraEvent(CameraEvent::Reset)))
    } else {
        None
    }
}

} // verus!
