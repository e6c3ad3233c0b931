//! Camera steering: what a key does to the motion of the camera.

use vstd::prelude::*;

verus! {

/// The keys that steer the camera; any other key is `Other`.
#[derive(Clone, Copy, Debug, PartialEq, Eq)]
pub enum Key {
    ArrowUp,
    ArrowDown,
    W,
    S,
    A,
    D,
    M,
    Other,
}

/// The motion of the camera along its three axes, each -1, 0 or 1.
#[derive(Clone, Copy, Debug, PartialEq, Eq)]
pub struct Motion {
    pub vertical: i32,
    pub forward: i32,
    pub turn: i32,
}

/// One when the key went down, zero when it came up.
pub open spec fn amount(pressed: bool) -> int {
    if pressed {
        1
    } else {
        0
    }
}

/// The motion after `key` went down or came up.
pub open spec fn steered(motion: Motion, key: Key, pressed: bool) -> Motion {
    match key {
        Key::ArrowUp => Motion { vertical: amount(pressed) as i32, ..motion },
        Key::ArrowDown => Motion { vertical: (-amount(pressed)) as i32, ..motion },
        Key::W => Motion { forward: amount(pressed) as i32, ..motion },
        Key::S => Motion { forward: (-amount(pressed)) as i32, ..motion },
        Key::A => Motion { turn: amount(pressed) as i32, ..motion },
        Key::D => Motion { turn: (-amount(pressed)) as i32, ..motion },
        _ => motion,
    }
}

impl Motion {
    /// The camera at rest.
    pub fn still() -> (motion: Motion)
        ensures
            motion == (Motion { vertical: 0, forward: 0, turn: 0 }),
    {
        Motion { vertical: 0, forward: 0, turn: 0 }
    }

    /// Applies one key event. The second part of the result tells whether
    /// the key starts a recording.
    pub fn steer(self, key: Key, pressed: bool) -> (out: (Motion, bool))
        ensures
            out.0 == steered(self, key, pressed),
            out.1 == (key == Key::M),
    {
        let step: i32 = if pressed {
            1
        } else {
            0
        };
        match key {
            Key::ArrowUp => (Motion { vertical: step, forward: self.forward, turn: self.turn }, false),
            Key::ArrowDown => (
                Motion { vertical: -step, forward: self.forward, turn: self.turn },
                false,
            ),
            Key::W => (Motion { vertical: self.vertical, forward: step, turn: self.turn }, false),
            Key::S => (Motion { vertical: self.vertical, forward: -step, turn: self.turn }, false),
            Key::A => (Motion { vertical: self.vertical, forward: self.forward, turn: step }, false),
            Key::D => (Motion { vertical: self.vertical, forward: self.forward, turn: -step }, false),
            Key::M => (self, true),
            Key::Other => (self, false),
        }
    }
}

} // verus!
