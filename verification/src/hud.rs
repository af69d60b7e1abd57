//! Identity of HUD widgets across frames.
use std::collections::hash_map::DefaultHasher;
use std::hash::Hasher;
use vstd::prelude::*;
use vstd::std_specs::hash::DefaultHasherAdditionalSpecFns;
use vstd::string::StringSliceAdditionalSpecFns;

verus! {

/// A widget id: the hash of its label.
#[derive(Clone, Copy, Debug, PartialEq, Eq, Structural, Hash)]
pub struct HudId(pub u64);

impl HudId {
    /// Hashes a label the way `str` feeds a hasher: its bytes, then the byte `0xff`.
    pub fn new(v: &str) -> (r: HudId)
        ensures
            r.0 == DefaultHasher::spec_finish(seq![v.spec_bytes(), seq![0xffu8]]),
    {
        let mut h = DefaultHasher::new();
        h.write(v.as_bytes());
        let end: [u8; 1] = [0xff];
        h.write(end.as_slice());
        proof {
            assert(end@ =~= seq![0xffu8]);
            assert(h@ =~= seq![v.spec_bytes(), seq![0xffu8]]);
        }
        HudId(h.finish())
    }
}

/// Which widget holds the mouse and whether the HUD wants it, carried across a frame of
/// widgets: the mouse-ownership part of the HUD, fed with what the frame's input says
/// about each widget (hovered, pressed, released, held down).
#[derive(Clone, Copy, Debug, PartialEq, Eq, Structural)]
pub struct HudFocus {
    /// The widget the mouse was pressed on, until the button is let go.
    pub active: Option<HudId>,
    /// Whether the HUD wants the mouse this frame (the scene should not see it).
    pub want_capture_mouse: bool,
}

/// The focus after a button `id`: a press while hovered makes it the active widget, and
/// while hovered or active it wants the mouse.
pub open spec fn button_after(f: HudFocus, id: HudId, hovered: bool, pressed: bool) -> HudFocus {
    let active = if hovered && pressed {
        Some(id)
    } else {
        f.active
    };
    HudFocus {
        active: active,
        want_capture_mouse: f.want_capture_mouse || hovered || active == Some(id),
    }
}

/// A button is clicked when the mouse is released over it while it holds the mouse.
pub open spec fn button_clicked(
    f: HudFocus,
    id: HudId,
    hovered: bool,
    pressed: bool,
    released: bool,
) -> bool {
    button_after(f, id, hovered, pressed).active == Some(id) && released && hovered
}

/// The focus at the end of a frame: the mouse stays wanted while a widget holds it, and
/// the widget lets go once the button is up.
pub open spec fn end_after(f: HudFocus, mouse_down: bool) -> HudFocus {
    HudFocus {
        active: if mouse_down {
            f.active
        } else {
            None
        },
        want_capture_mouse: f.want_capture_mouse || f.active is Some,
    }
}

impl HudFocus {
    /// No widget holds the mouse.
    pub fn new() -> (r: HudFocus)
        ensures
            r.active is None,
            !r.want_capture_mouse,
    {
        HudFocus { active: None, want_capture_mouse: false }
    }

    /// Starts a frame: the mouse is not wanted until a widget asks for it.
    pub fn begin(&mut self)
        ensures
            *final(self) == (HudFocus { want_capture_mouse: false, ..*old(self) }),
    {
        self.want_capture_mouse = false;
    }

    /// A background panel: it wants the mouse while hovered.
    pub fn panel(&mut self, hovered: bool)
        ensures
            *final(self) == (HudFocus {
                want_capture_mouse: old(self).want_capture_mouse || hovered,
                ..*old(self)
            }),
    {
        if hovered {
            self.want_capture_mouse = true;
        }
    }

    /// A button: see `button_after` and `button_clicked`.
    pub fn button(&mut self, id: HudId, hovered: bool, pressed: bool, released: bool) -> (clicked: bool)
        ensures
            *final(self) == button_after(*old(self), id, hovered, pressed),
            clicked == button_clicked(*old(self), id, hovered, pressed, released),
    {
        if hovered {
            self.want_capture_mouse = true;
        }
        if hovered && pressed {
            self.active = Some(id);
        }
        let held = match self.active {
            Some(a) => a.0 == id.0,
            None => false,
        };
        if held {
            self.want_capture_mouse = true;
        }
        held && released && hovered
    }

    /// Ends a frame (see `end_after`) and returns whether the HUD wants the mouse.
    pub fn end(&mut self, mouse_down: bool) -> (want: bool)
        ensures
            *final(self) == end_after(*old(self), mouse_down),
            want == final(self).want_capture_mouse,
    {
        if self.active.is_some() {
            self.want_capture_mouse = true;
        }
        if !mouse_down {
            self.active = None;
        }
        self.want_capture_mouse
    }
}

/// A click is a press and a release on the same button: a button that did not hold the
/// mouse is clicked in a frame only if the mouse was pressed on it in that frame, and a
/// clicked button has made the HUD want the mouse.
pub proof fn law_click_needs_press_on_button(
    f: HudFocus,
    id: HudId,
    hovered: bool,
    pressed: bool,
    released: bool,
)
    ensures
        button_clicked(f, id, hovered, pressed, released) && f.active != Some(id) ==> pressed
            && hovered,
        button_clicked(f, id, hovered, pressed, released) ==> button_after(
            f,
            id,
            hovered,
            pressed,
        ).want_capture_mouse,
{
}

/// Pressing a hovered button, holding the mouse to the end of the frame and releasing it
/// over the button in the next frame clicks it, whatever held the mouse before; and once
/// the mouse is up at the end of a frame, no widget holds it.
pub proof fn law_press_then_release_clicks(f: HudFocus, id: HudId)
    ensures
        ({
            let f1 = end_after(button_after(f, id, true, true), true);
            let f2 = HudFocus { want_capture_mouse: false, ..f1 };
            button_clicked(f2, id, true, false, true)
        }),
        end_after(f, false).active is None,
{
}

} // verus!