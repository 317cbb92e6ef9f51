//! The player's input decisions: the movement direction chosen by the keys, and
//! how mouse clicks and the escape key grab or release the cursor.
use vstd::prelude::*;

verus! {

/// The movement input on each axis: right (`x`), forward (`y`) and up (`z`), each
/// -1, 0 or 1.
#[derive(Clone, Copy, Debug, PartialEq, Eq, Structural)]
pub struct MoveInput {
    pub x: i32,
    pub y: i32,
    pub z: i32,
}

/// Which movement keys are held down.
#[derive(Clone, Copy, Debug, PartialEq, Eq, Structural)]
pub struct MoveKeys {
    pub forward: bool,
    pub back: bool,
    pub right: bool,
    pub left: bool,
    pub up: bool,
    pub down: bool,
}

/// `1` for the positive key alone, `-1` for the negative key alone, else `0`.
pub open spec fn axis(plus: bool, minus: bool) -> int {
    (if plus { 1int } else { 0int }) - (if minus { 1int } else { 0int })
}

/// Combines the held keys into a movement input: each axis is the difference of its
/// two opposing keys.
pub fn movement_input(keys: MoveKeys) -> (input: MoveInput)
    ensures
        input.x == axis(keys.right, keys.left),
        input.y == axis(keys.forward, keys.back),
        input.z == axis(keys.up, keys.down),
{
    let mut input = MoveInput { x: 0, y: 0, z: 0 };
    if keys.forward {
        input.y = input.y + 1;
    }
    if keys.back {
        input.y = input.y - 1;
    }
    if keys.right {
        input.x = input.x + 1;
    }
    if keys.left {
        input.x = input.x - 1;
    }
    if keys.up {
        input.z = input.z + 1;
    }
    if keys.down {
        input.z = input.z - 1;
    }
    input
}

/// The player moves exactly when the input is not zero on every axis.
pub fn is_moving(input: MoveInput) -> (moving: bool)
    ensures
        moving == (input.x != 0 || input.y != 0 || input.z != 0),
{
    input.x != 0 || input.y != 0 || input.z != 0
}

/// How the cursor is held by the window (`Free`: not grabbed).
#[derive(Clone, Copy, Debug, PartialEq, Eq, Structural)]
pub enum GrabMode {
    Free,
    Confined,
    Locked,
}

/// The cursor's grab mode and visibility.
#[derive(Clone, Copy, Debug, PartialEq, Eq, Structural)]
pub struct CursorState {
    pub grab: GrabMode,
    pub visible: bool,
}

/// The cursor after a frame's clicks: a left click locks and hides it, and asks for
/// it to be moved to the window's centre; the escape key then releases and shows it.
pub fn grab_mouse(cursor: CursorState, left_just_pressed: bool, escape_just_pressed: bool) -> (out: (CursorState, bool))
    ensures
        out.1 == left_just_pressed,
        escape_just_pressed ==> out.0 == (CursorState { grab: GrabMode::Free, visible: true }),
        !escape_just_pressed && left_just_pressed ==> out.0 == (CursorState { grab: GrabMode::Locked, visible: false }),
        !escape_just_pressed && !left_just_pressed ==> out.0 == cursor,
{
    let mut state = cursor;
    let mut recenter = false;
    if left_just_pressed {
        state = CursorState { grab: GrabMode::Locked, visible: false };
        recenter = true;
    }
    if escape_just_pressed {
        state = CursorState { grab: GrabMode::Free, visible: true };
    }
    (state, recenter)
}


/// An axis is positive exactly when only its positive key is held, negative exactly
/// when only its negative key is held, and swapping the keys negates it.
pub proof fn lemma_axis_follows_keys(plus: bool, minus: bool)
    ensures
        axis(plus, minus) > 0 <==> plus && !minus,
        axis(plus, minus) < 0 <==> minus && !plus,
        axis(plus, minus) == -axis(minus, plus),
        -1 <= axis(plus, minus) <= 1,
{
}

} // verus!
