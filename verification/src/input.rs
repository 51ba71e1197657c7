//! The decisions of the map window: what an input event does to the pointer
//! state (cursor, dragging) and which action the window takes for it. The
//! window itself performs the actions: zooming, panning, resizing,
//! rendering.

use vstd::prelude::*;

verus! {

/// A mouse button, as far as the map tells them apart.
#[derive(Clone, Copy, Debug, PartialEq, Eq, Structural)]
pub enum PointerButton {
    Left,
    Right,
    Other,
}

/// An event of the window; `P` is a cursor position in pixels.
#[derive(Debug)]
pub enum InputEvent<P> {
    CloseRequested,
    /// The window has a new size.
    Resized { width: u32, height: u32 },
    /// The mouse wheel turned (by any amount).
    Scrolled,
    CursorMoved(P),
    Pressed(PointerButton),
    Released(PointerButton),
    RedrawRequested,
    /// Any other event, which the map ignores.
    Other,
}

/// What the window does in answer to an event.
#[derive(Debug)]
pub enum InputAction<P> {
    Nothing,
    /// Drop the view and the window, and leave the event loop.
    Exit,
    /// Fit the view to the new window size.
    Resize { width: u32, height: u32 },
    /// Zoom around the cursor, then ask for a redraw.
    Zoom { cursor: P },
    /// Move the map by the drag from `from` to `to`; ask for a redraw when
    /// `redraw`.
    Pan { from: P, to: P, redraw: bool },
    /// Tell which map position lies under the cursor.
    ReportPosition { cursor: P },
    /// Draw a frame.
    Render,
}

/// The pointer state of the window.
#[derive(Debug)]
pub struct PointerState<P> {
    /// Where the cursor was last seen, if anywhere.
    pub cursor: Option<P>,
    /// Whether the left button is held down.
    pub dragging: bool,
    /// Where the drag was last seen, while dragging.
    pub last_drag: Option<P>,
}

/// The next pointer state and the action for `event`, where `view` is the
/// size of the drawn view when there is one, and `has_window` tells whether
/// the window exists.
pub open spec fn pointer_step<P>(
    s: PointerState<P>,
    event: InputEvent<P>,
    view: Option<(u32, u32)>,
    has_window: bool,
) -> (PointerState<P>, InputAction<P>) {
    match event {
        InputEvent::CloseRequested => (s, InputAction::Exit),
        InputEvent::Resized { width, height } => (
            s,
            if view is Some {
                InputAction::Resize { width, height }
            } else {
                InputAction::Nothing
            },
        ),
        InputEvent::Scrolled => (
            s,
            if view is Some && has_window && s.cursor is Some {
                InputAction::Zoom { cursor: s.cursor->0 }
            } else {
                InputAction::Nothing
            },
        ),
        InputEvent::CursorMoved(p) => (
            PointerState {
                cursor: Some(p),
                dragging: s.dragging,
                last_drag: if s.dragging {
                    Some(p)
                } else {
                    s.last_drag
                },
            },
            if s.dragging && s.last_drag is Some && view is Some {
                InputAction::Pan { from: s.last_drag->0, to: p, redraw: has_window }
            } else {
                InputAction::Nothing
            },
        ),
        InputEvent::Pressed(PointerButton::Left) => (
            PointerState { cursor: s.cursor, dragging: true, last_drag: s.cursor },
            InputAction::Nothing,
        ),
        InputEvent::Released(PointerButton::Left) => (
            PointerState { cursor: s.cursor, dragging: false, last_drag: None },
            InputAction::Nothing,
        ),
        InputEvent::Pressed(PointerButton::Right) => (
            s,
            if view matches Some(size) && size.0 > 0 && size.1 > 0 && s.cursor is Some {
                InputAction::ReportPosition { cursor: s.cursor->0 }
            } else {
                InputAction::Nothing
            },
        ),
        InputEvent::RedrawRequested => (
            s,
            if view is Some {
                InputAction::Render
            } else {
                InputAction::Nothing
            },
        ),
        _ => (s, InputAction::Nothing),
    }
}

impl<P: Copy> PointerState<P> {
    /// The state of a new window: no cursor seen, no drag.
    pub fn new() -> (s: PointerState<P>)
        ensures
            s.cursor is None,
            !s.dragging,
            s.last_drag is None,
    {
        PointerState { cursor: None, dragging: false, last_drag: None }
    }

    /// Takes `event` into the pointer state and returns the action the
    /// window takes for it; `view` is the size of the drawn view when there
    /// is one.
    pub fn handle(&mut self, event: InputEvent<P>, view: Option<(u32, u32)>, has_window: bool) -> (action: InputAction<P>)
        ensures
            (*final(self), action) == pointer_step(*old(self), event, view, has_window),
    {
        match event {
            InputEvent::CloseRequested => InputAction::Exit,
            InputEvent::Resized { width, height } => {
                if view.is_some() {
                    InputAction::Resize { width, height }
                } else {
                    InputAction::Nothing
                }
            },
            InputEvent::Scrolled => {
                match self.cursor {
                    Some(c) => {
                        if view.is_some() && has_window {
                            InputAction::Zoom { cursor: c }
                        } else {
                            InputAction::Nothing
                        }
                    },
                    None => InputAction::Nothing,
                }
            },
            InputEvent::CursorMoved(p) => {
                let mut action = InputAction::Nothing;
                // if dragging, pan by the move from the previous cursor position
                if self.dragging {
                    if let Some(prev) = self.last_drag {
                        if view.is_some() {
                            action = InputAction::Pan { from: prev, to: p, redraw: has_window };
                        }
                    }
                    self.last_drag = Some(p);
                }
                self.cursor = Some(p);
                action
            },
            InputEvent::Pressed(PointerButton::Left) => {
                self.dragging = true;
                self.last_drag = self.cursor;
                InputAction::Nothing
            },
            InputEvent::Released(PointerButton::Left) => {
                self.dragging = false;
                self.last_drag = None;
                InputAction::Nothing
            },
            InputEvent::Pressed(PointerButton::Right) => {
                match (view, self.cursor) {
                    (Some((w, h)), Some(c)) => {
                        if w > 0 && h > 0 {
                            InputAction::ReportPosition { cursor: c }
                        } else {
                            InputAction::Nothing
                        }
                    },
                    _ => InputAction::Nothing,
                }
            },
            InputEvent::RedrawRequested => {
                if view.is_some() {
                    InputAction::Render
                } else {
                    InputAction::Nothing
                }
            },
            _ => InputAction::Nothing,
        }
    }
}

/// How drawing a frame went.
#[derive(Clone, Copy, Debug, PartialEq, Eq, Structural)]
pub enum FrameOutcome {
    Presented,
    /// The surface was lost.
    SurfaceLost,
    OutOfMemory,
    /// Any other surface error.
    OtherError,
}

/// What the window does after drawing a frame.
#[derive(Clone, Copy, Debug, PartialEq, Eq, Structural)]
pub enum FrameReaction {
    Continue,
    /// Configure the surface again at its current size.
    Reconfigure,
    Exit,
    /// Report the error and go on.
    Report,
}

/// Answers the outcome of a frame: a lost surface is configured again, a
/// lack of memory ends the program, any other error is reported.
pub fn frame_reaction(outcome: FrameOutcome) -> (r: FrameReaction)
    ensures
        r == match outcome {
            FrameOutcome::Presented => FrameReaction::Continue,
            FrameOutcome::SurfaceLost => FrameReaction::Reconfigure,
            FrameOutcome::OutOfMemory => FrameReaction::Exit,
            FrameOutcome::OtherError => FrameReaction::Report,
        },
{
    match outcome {
        FrameOutcome::Presented => FrameReaction::Continue,
        FrameOutcome::SurfaceLost => FrameReaction::Reconfigure,
        FrameOutcome::OutOfMemory => FrameReaction::Exit,
        FrameOutcome::OtherError => FrameReaction::Report,
    }
}

/// A drag moves the map with the cursor: with the cursor at `c`, pressing
/// the left button and moving to `p` pans from `c` to `p`, and moving on to
/// `q` pans from `p` to `q`.
pub proof fn drag_pans_between_cursor_positions<P>(
    s: PointerState<P>,
    c: P,
    p: P,
    q: P,
    size: (u32, u32),
    has_window: bool,
)
    requires
        s.cursor == Some(c),
    ensures
        ({
            let view = Some(size);
            let (s1, a1) = pointer_step(s, InputEvent::Pressed(PointerButton::Left), view, has_window);
            let (s2, a2) = pointer_step(s1, InputEvent::CursorMoved(p), view, has_window);
            let (s3, a3) = pointer_step(s2, InputEvent::CursorMoved(q), view, has_window);
            &&& a1 == InputAction::<P>::Nothing
            &&& a2 == InputAction::Pan { from: c, to: p, redraw: has_window }
            &&& a3 == InputAction::Pan { from: p, to: q, redraw: has_window }
            &&& s3.cursor == Some(q)
        }),
{
}

/// Once the left button is released, moving the cursor pans nothing, in
/// whatever state the pointer was.
pub proof fn release_ends_drag<P>(s: PointerState<P>, p: P, view: Option<(u32, u32)>, has_window: bool)
    ensures
        ({
            let (s1, a1) = pointer_step(s, InputEvent::Released(PointerButton::Left), view, has_window);
            let (s2, a2) = pointer_step(s1, InputEvent::CursorMoved(p), view, has_window);
            &&& a1 == InputAction::<P>::Nothing
            &&& a2 == InputAction::<P>::Nothing
            &&& s2.cursor == Some(p)
            &&& !s2.dragging
        }),
{
}

/// Only the left button starts a drag: from a state that is not dragging,
/// pressing any other button leaves it not dragging, so moving the cursor
/// afterwards pans nothing.
pub proof fn only_left_button_starts_drag<P>(
    s: PointerState<P>,
    button: PointerButton,
    p: P,
    view: Option<(u32, u32)>,
    has_window: bool,
)
    requires
        !s.dragging,
        button != PointerButton::Left,
    ensures
        ({
            let (s1, _a1) = pointer_step(s, InputEvent::Pressed(button), view, has_window);
            let (_s2, a2) = pointer_step(s1, InputEvent::CursorMoved(p), view, has_window);
            &&& !s1.dragging
            &&& a2 == InputAction::<P>::Nothing
        }),
{
}

/// Moving the cursor pans the map only during a drag, and the pan always
/// ends where the cursor now is.
pub proof fn moves_pan_only_while_dragging<P>(s: PointerState<P>, p: P, view: Option<(u32, u32)>, has_window: bool)
    ensures
        ({
            let (s1, a) = pointer_step(s, InputEvent::CursorMoved(p), view, has_window);
            &&& (a is Pan ==> s.dragging && a->to == p)
            &&& s1.cursor == Some(p)
            &&& s1.dragging == s.dragging
        }),
{
}

} // verus!
