use vstd::prelude::*;

verus! {

/// What the player asked for during one tick. The first four flags are
/// one-shot actions; the others are keys held down.
#[derive(Debug, Default, Clone, Copy)]
pub struct InputState {
    pub break_block: bool,
    pub place_block: bool,
    pub jump: bool,
    pub toggle_mouse_lock: bool,
    pub move_fwd: bool,
    pub move_back: bool,
    pub move_left: bool,
    pub move_right: bool,
}

impl InputState {
    /// Resets the one-shot actions after a tick; held keys stay as they are.
    pub fn clear_one_shots(&mut self)
        ensures
            *final(self) == (InputState {
                break_block: false,
                place_block: false,
                jump: false,
                toggle_mouse_lock: false,
                ..*old(self)
            }),
    {
        self.break_block = false;
        self.place_block = false;
        self.jump = false;
        self.toggle_mouse_lock = false;
    }
}

} // verus!
