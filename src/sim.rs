use vstd::prelude::*;

verus! {

/// Edge detection on the cursor button: tells when a press begins.
pub struct Input {
    was_pressed: bool,
}

impl Input {
    /// Whether the button was down at the last step.
    pub closed spec fn was_pressed(self) -> bool {
        self.was_pressed
    }

    pub fn new() -> (r: Self)
        ensures
            !r.was_pressed(),
    {
        Self { was_pressed: false }
    }

    /// Records the button state of this step; `true` exactly when the button is
    /// down now and was not at the last step.
    pub fn update(&mut self, pressed: bool) -> (started: bool)
        ensures
            started == (pressed && !old(self).was_pressed()),
            final(self).was_pressed() == pressed,
    {
        let started = pressed && !self.was_pressed;
        self.was_pressed = pressed;
        started
    }
}

} // verus!
