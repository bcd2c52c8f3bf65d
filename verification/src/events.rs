use vstd::prelude::*;

use crate::canvas::spec_undo_pop;
use crate::canvas::Canvas;

verus! {

/// A point in surface-local coordinates.
#[derive(Clone, Copy, Debug, PartialEq, Eq, Structural)]
pub struct Point {
    pub x: i32,
    pub y: i32,
}

/// An input event delivered by the host toolkit, already translated to
/// surface-local coordinates; delivery mechanics stay outside the core.
#[derive(Clone, Copy, Debug, PartialEq, Eq, Structural)]
pub enum InputEvent {
    Mouse { point: Point, left_button: bool, middle_button: bool, right_button: bool },
    Text { c: char },
    Other,
}

/// A notification the canvas raises for the surrounding application to
/// dispatch to whatever observer it registered.
#[derive(Clone, Copy, Debug, PartialEq, Eq, Structural)]
pub enum CanvasEvent {
    Click(Point),
    RightClick(Point),
    ClearClick(Point),
    Shortcut(char),
}

/// The notifications one input event produces: a pressed secondary then
/// primary button each raise their click at the event's point; a pointer
/// that moves with no button held raises a clearing click at the origin; a
/// recognized shortcut character ('v', 'c', 'x' or 'Q') is passed on.  The
/// character 'z' raises nothing: it triggers the canvas's own restore.
pub open spec fn spec_event_out(ev: InputEvent) -> Seq<CanvasEvent> {
    match ev {
        InputEvent::Mouse { point, left_button, middle_button, right_button } => (if right_button {
            seq![CanvasEvent::RightClick(point)]
        } else {
            Seq::<CanvasEvent>::empty()
        }) + (if left_button {
            seq![CanvasEvent::Click(point)]
        } else {
            Seq::<CanvasEvent>::empty()
        }) + (if !right_button && !left_button && !middle_button {
            seq![CanvasEvent::ClearClick(Point { x: 0, y: 0 })]
        } else {
            Seq::<CanvasEvent>::empty()
        }),
        InputEvent::Text { c } => if c == 'v' || c == 'c' || c == 'x' || c == 'Q' {
            seq![CanvasEvent::Shortcut(c)]
        } else {
            Seq::<CanvasEvent>::empty()
        },
        InputEvent::Other => Seq::<CanvasEvent>::empty(),
    }
}

impl Canvas {
    /// Turn one input event into the notifications to deliver, performing
    /// the one built-in reaction itself: the character 'z' restores the
    /// previous snapshot instead of raising anything.
    pub fn event(&mut self, ev: InputEvent) -> (out: Vec<CanvasEvent>)
        requires
            old(self).wf(),
        ensures
            final(self).wf(),
            out@ == spec_event_out(ev),
            ev == (InputEvent::Text { c: 'z' }) ==> {
                &&& final(self).mask == old(self).mask
                &&& final(self).mask_flag == old(self).mask_flag
                &&& final(self).mask_enabled == old(self).mask_enabled
                &&& final(self).copy_buffer == old(self).copy_buffer
                &&& final(self).undo_stack@ == spec_undo_pop(old(self).undo_stack@)
                &&& (old(self).undo_stack@.len() > 1 ==> final(self).image.same_pixels(
                    old(self).undo_stack@[old(self).undo_stack@.len() - 2],
                ))
                &&& (old(self).undo_stack@.len() == 1 ==> final(self).image == old(self).image)
            },
            ev != (InputEvent::Text { c: 'z' }) ==> *final(self) == *old(self),
    {
        let mut out: Vec<CanvasEvent> = Vec::new();
        match ev {
            InputEvent::Mouse { point, left_button, middle_button, right_button } => {
                if right_button {
                    out.push(CanvasEvent::RightClick(point));
                }
                if left_button {
                    out.push(CanvasEvent::Click(point));
                }
                if !right_button && !left_button && !middle_button {
                    out.push(CanvasEvent::ClearClick(Point { x: 0, y: 0 }));
                }
                proof {
                    assert(out@ =~= spec_event_out(ev));
                }
            },
            InputEvent::Text { c } => {
                if c == 'z' {
                    self.undo();
                }
                if c == 'v' || c == 'c' || c == 'x' || c == 'Q' {
                    out.push(CanvasEvent::Shortcut(c));
                }
                proof {
                    assert(out@ =~= spec_event_out(ev));
                }
            },
            InputEvent::Other => {
                proof {
                    assert(out@ =~= spec_event_out(ev));
                }
            },
        }
        out
    }
}

} // verus!
