//! What pointers and keys do to the camera.
use crate::text::same_text;
use vstd::prelude::*;

verus! {

/// How many keys steer the camera.
pub const KEY_COUNT: usize = 10;

/// The number of a key, by its code.
pub open spec fn key_number(code: Seq<char>) -> Option<usize> {
    if code == "KeyW"@ || code == "ArrowUp"@ {
        Some(0)
    } else if code == "KeyS"@ || code == "ArrowDown"@ {
        Some(1)
    } else if code == "KeyA"@ || code == "ArrowLeft"@ {
        Some(2)
    } else if code == "KeyD"@ || code == "ArrowRight"@ {
        Some(3)
    } else if code == "KeyQ"@ {
        Some(4)
    } else if code == "KeyE"@ {
        Some(5)
    } else if code == "KeyR"@ {
        Some(6)
    } else if code == "KeyF"@ {
        Some(7)
    } else if code == "Space"@ {
        Some(8)
    } else if code == "ShiftLeft"@ || code == "ShiftRight"@ {
        Some(9)
    } else {
        None
    }
}

/// The number of a key that steers the camera.
pub fn key_index(code: &str) -> (index: Option<usize>)
    ensures
        index == key_number(code@),
        index matches Some(i) ==> i < KEY_COUNT,
{
    if same_text(code, "KeyW") || same_text(code, "ArrowUp") {
        Some(0)
    } else if same_text(code, "KeyS") || same_text(code, "ArrowDown") {
        Some(1)
    } else if same_text(code, "KeyA") || same_text(code, "ArrowLeft") {
        Some(2)
    } else if same_text(code, "KeyD") || same_text(code, "ArrowRight") {
        Some(3)
    } else if same_text(code, "KeyQ") {
        Some(4)
    } else if same_text(code, "KeyE") {
        Some(5)
    } else if same_text(code, "KeyR") {
        Some(6)
    } else if same_text(code, "KeyF") {
        Some(7)
    } else if same_text(code, "Space") {
        Some(8)
    } else if same_text(code, "ShiftLeft") || same_text(code, "ShiftRight") {
        Some(9)
    } else {
        None
    }
}

/// What the pointer does to the camera, and which keys are down.
pub struct Input {
    pub panning: bool,
    pub rotating: bool,
    pub keys: Vec<bool>,
}

/// A press of the pointer: its button, and which other keys are down with it.
#[derive(Copy, Clone, PartialEq, Eq, Debug, Structural)]
pub struct Press {
    pub button: i16,
    pub shift: bool,
    pub ctrl: bool,
}

/// What a press of the pointer asks for.
#[derive(Copy, Clone, PartialEq, Eq, Debug, Structural)]
pub enum PressAction {
    Nothing,
    /// The pointer is to be locked to the canvas.
    LockPointer,
    /// The globe is grabbed where the pointer is.
    Grab,
}

/// What a move of the pointer asks for.
#[derive(Copy, Clone, PartialEq, Eq, Debug, Structural)]
pub enum MoveAction {
    Nothing,
    /// Look around by how far the locked pointer moved.
    LookLocked,
    /// Look around by how far the pointer moved.
    Look,
    /// Rotate about the point looked at.
    Rotate,
    /// Drag the globe.
    Drag,
}

/// What the keys ask for: each axis is pressed one way, the other way, or neither.
#[derive(Copy, Clone, PartialEq, Eq, Debug, Structural)]
pub enum KeyAction {
    Fly { forward: i32, right: i32, up: i32 },
    Walk { forward: i32, right: i32, turn: i32, tilt: i32 },
}

/// Whether a press tilts the view: one of the second or third button, or with a key.
pub open spec fn tilts(press: Press) -> bool {
    press.button == 2 || press.button == 1 || press.shift || press.ctrl
}

/// An axis from the keys that press it one way and the other.
pub open spec fn axis_of(forth: bool, back: bool) -> i32 {
    if forth == back {
        0
    } else if forth {
        1
    } else {
        -1i32
    }
}

fn axis(forth: bool, back: bool) -> (axis: i32)
    ensures
        axis == axis_of(forth, back),
{
    if forth == back {
        0
    } else if forth {
        1
    } else {
        -1
    }
}

/// What keys ask for, in free flight or not.
pub open spec fn keys_action(keys: Seq<bool>, free: bool) -> KeyAction {
    if free {
        KeyAction::Fly {
            forward: axis_of(keys[0], keys[1]),
            right: axis_of(keys[3], keys[2]),
            up: axis_of(keys[8], keys[9]),
        }
    } else {
        KeyAction::Walk {
            forward: axis_of(keys[0], keys[1]),
            right: axis_of(keys[3], keys[2]),
            turn: axis_of(keys[5], keys[4]),
            tilt: axis_of(keys[7], keys[6]),
        }
    }
}

impl Input {
    pub open spec fn wf(&self) -> bool {
        &&& self.keys@.len() == KEY_COUNT
        &&& !(self.panning && self.rotating)
    }

    /// Nothing is pressed.
    pub fn new() -> (input: Self)
        ensures
            input.wf(),
            !input.panning,
            !input.rotating,
            forall|i: int| 0 <= i < KEY_COUNT ==> !#[trigger] input.keys@[i],
    {
        Input { panning: false, rotating: false, keys: no_keys() }
    }

    /// The pointer was pressed, and no tool took it. In free flight it is locked,
    /// unless it is so already.
    pub fn press(&mut self, press: Press, free: bool, locked: bool) -> (action: PressAction)
        requires
            old(self).wf(),
        ensures
            final(self).wf(),
            final(self).keys == old(self).keys,
            final(self).rotating == (!free && tilts(press)),
            final(self).rotating == (!free && (press.button == 1 || press.button == 2 || press.shift
                || press.ctrl)),
            final(self).panning == (press.button == 0 && (free || !tilts(press))),
            action == (if free {
                if locked {
                    PressAction::Nothing
                } else {
                    PressAction::LockPointer
                }
            } else if final(self).panning {
                PressAction::Grab
            } else {
                PressAction::Nothing
            }),
    {
        if free {
            self.rotating = false;
            self.panning = press.button == 0;
            return if locked {
                PressAction::Nothing
            } else {
                PressAction::LockPointer
            };
        }
        let tilt: bool = press.button == 2 || press.button == 1 || press.shift || press.ctrl;
        self.rotating = tilt;
        self.panning = !tilt && press.button == 0;
        if self.panning {
            PressAction::Grab
        } else {
            PressAction::Nothing
        }
    }

    /// The pointer was released, or left the canvas.
    pub fn release(&mut self)
        requires
            old(self).wf(),
        ensures
            final(self).wf(),
            final(self).keys == old(self).keys,
            !final(self).panning,
            !final(self).rotating,
    {
        self.panning = false;
        self.rotating = false;
    }

    /// What a move of the pointer asks for that no tool took.
    pub fn moved(&self, free: bool, locked: bool) -> (action: MoveAction)
        ensures
            action == (if free {
                if locked {
                    MoveAction::LookLocked
                } else if self.panning {
                    MoveAction::Look
                } else {
                    MoveAction::Nothing
                }
            } else if self.rotating {
                MoveAction::Rotate
            } else if self.panning {
                MoveAction::Drag
            } else {
                MoveAction::Nothing
            }),
    {
        if free {
            if locked {
                MoveAction::LookLocked
            } else if self.panning {
                MoveAction::Look
            } else {
                MoveAction::Nothing
            }
        } else if self.rotating {
            MoveAction::Rotate
        } else if self.panning {
            MoveAction::Drag
        } else {
            MoveAction::Nothing
        }
    }

    /// A key went down or up.
    pub fn key(&mut self, index: usize, down: bool)
        requires
            old(self).wf(),
            index < KEY_COUNT,
        ensures
            final(self).wf(),
            final(self).panning == old(self).panning,
            final(self).rotating == old(self).rotating,
            final(self).keys@ == old(self).keys@.update(index as int, down),
    {
        self.keys.set(index, down);
    }

    /// What the keys ask for.
    pub fn apply_keys(&self, free: bool) -> (action: KeyAction)
        requires
            self.wf(),
        ensures
            action == keys_action(self.keys@, free),
    {
        let forward: i32 = axis(self.keys[0], self.keys[1]);
        let right: i32 = axis(self.keys[3], self.keys[2]);
        if free {
            KeyAction::Fly { forward, right, up: axis(self.keys[8], self.keys[9]) }
        } else {
            KeyAction::Walk {
                forward,
                right,
                turn: axis(self.keys[5], self.keys[4]),
                tilt: axis(self.keys[7], self.keys[6]),
            }
        }
    }

    /// Lets go of everything, as free flight starts or ends.
    pub fn set_fps(&mut self)
        ensures
            final(self).wf(),
            !final(self).panning,
            !final(self).rotating,
            forall|i: int| 0 <= i < KEY_COUNT ==> !#[trigger] final(self).keys@[i],
    {
        self.panning = false;
        self.rotating = false;
        self.keys = no_keys();
    }
}

fn no_keys() -> (keys: Vec<bool>)
    ensures
        keys@.len() == KEY_COUNT,
        forall|i: int| 0 <= i < KEY_COUNT ==> !#[trigger] keys@[i],
{
    vec![false, false, false, false, false, false, false, false, false, false]
}

/// Where no key is down, the keys ask for nothing.
pub proof fn lemma_no_keys_no_motion(keys: Seq<bool>, free: bool)
    requires
        keys.len() == KEY_COUNT,
        forall|i: int| 0 <= i < KEY_COUNT ==> !#[trigger] keys[i],
    ensures
        keys_action(keys, free) == (if free {
            KeyAction::Fly { forward: 0, right: 0, up: 0 }
        } else {
            KeyAction::Walk { forward: 0, right: 0, turn: 0, tilt: 0 }
        }),
{
}

/// By how many pixels a turn of the wheel counts: sixteen for each line where it
/// counts in lines.
pub fn wheel_scale(delta_mode: u32) -> (scale: u32)
    ensures
        scale == (if delta_mode == 1 {
            16u32
        } else {
            1
        }),
{
    if delta_mode == 1 {
        16
    } else {
        1
    }
}

/// Each axis goes one way with one key, the other way with its opposite, and nowhere with
/// both. In free flight the keys move forth and back, right and left, up and down; else they
/// move forth and back, right and left, turn, and tilt.
pub proof fn lemma_keys_oppose(keys: Seq<bool>)
    requires
        keys.len() == KEY_COUNT,
    ensures
        ({
            let n = |i: int|
                if keys[i] {
                    1int
                } else {
                    0
                };
            &&& keys_action(keys, true) matches KeyAction::Fly { forward, right, up } && forward
                == n(0) - n(1) && right == n(3) - n(2) && up == n(8) - n(9)
            &&& keys_action(keys, false) matches KeyAction::Walk { forward, right, turn, tilt }
                && forward == n(0) - n(1) && right == n(3) - n(2) && turn == n(5) - n(4) && tilt
                == n(7) - n(6)
        }),
{
}

/// The keys of a code that is held alone.
pub open spec fn held_alone(code: Seq<char>) -> Seq<bool> {
    Seq::new(KEY_COUNT as nat, |i: int| key_number(code) == Some(i as usize))
}

/// What each key does when it is held alone, by where it is on a keyboard or what it shows.
pub proof fn lemma_keys_move(code: Seq<char>)
    ensures
        ({
            let fly = keys_action(held_alone(code), true);
            let walk = keys_action(held_alone(code), false);
            let (forward, right, up, turn, tilt): (int, int, int, int, int) = if code == "KeyW"@
                || code == "ArrowUp"@ {
                (1, 0, 0, 0, 0)
            } else if code == "KeyS"@ || code == "ArrowDown"@ {
                (-1, 0, 0, 0, 0)
            } else if code == "KeyD"@ || code == "ArrowRight"@ {
                (0, 1, 0, 0, 0)
            } else if code == "KeyA"@ || code == "ArrowLeft"@ {
                (0, -1, 0, 0, 0)
            } else if code == "Space"@ {
                (0, 0, 1, 0, 0)
            } else if code == "ShiftLeft"@ || code == "ShiftRight"@ {
                (0, 0, -1, 0, 0)
            } else if code == "KeyE"@ {
                (0, 0, 0, 1, 0)
            } else if code == "KeyQ"@ {
                (0, 0, 0, -1, 0)
            } else if code == "KeyF"@ {
                (0, 0, 0, 0, 1)
            } else if code == "KeyR"@ {
                (0, 0, 0, 0, -1)
            } else {
                (0, 0, 0, 0, 0)
            };
            &&& fly matches KeyAction::Fly { forward: f, right: r, up: u } && f == forward && r
                == right && u == up
            &&& walk matches KeyAction::Walk { forward: f, right: r, turn: t, tilt: l } && f
                == forward && r == right && t == turn && l == tilt
        }),
{
    reveal_strlit("KeyW");
    reveal_strlit("KeyS");
    reveal_strlit("KeyA");
    reveal_strlit("KeyD");
    reveal_strlit("KeyQ");
    reveal_strlit("KeyE");
    reveal_strlit("KeyR");
    reveal_strlit("KeyF");
    reveal_strlit("ArrowUp");
    reveal_strlit("ArrowDown");
    reveal_strlit("ArrowLeft");
    reveal_strlit("ArrowRight");
    reveal_strlit("Space");
    reveal_strlit("ShiftLeft");
    reveal_strlit("ShiftRight");
    let (w, s, a, d) = ("KeyW"@, "KeyS"@, "KeyA"@, "KeyD"@);
    let (q, e, r, f) = ("KeyQ"@, "KeyE"@, "KeyR"@, "KeyF"@);
    assert(w[3] == 'W' && s[3] == 'S' && a[3] == 'A' && d[3] == 'D');
    assert(q[3] == 'Q' && e[3] == 'E' && r[3] == 'R' && f[3] == 'F');
    assert(w.len() == 4 && s.len() == 4 && a.len() == 4 && d.len() == 4);
    assert(q.len() == 4 && e.len() == 4 && r.len() == 4 && f.len() == 4);
    let (up, down, left, right) = ("ArrowUp"@, "ArrowDown"@, "ArrowLeft"@, "ArrowRight"@);
    assert(up.len() == 7 && down.len() == 9 && left.len() == 9 && right.len() == 10);
    assert(down[5] == 'D' && left[5] == 'L' && "ShiftLeft"@[5] == 'L' && "ShiftLeft"@[0] == 'S');
    assert(down[0] == 'A' && left[0] == 'A' && right[0] == 'A' && "ShiftRight"@[0] == 'S');
    assert("Space"@.len() == 5 && "ShiftLeft"@.len() == 9 && "ShiftRight"@.len() == 10);
}

} // verus!
