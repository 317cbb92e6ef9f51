use terrain_raymarch::input::{grab_mouse, is_moving, movement_input, CursorState, GrabMode, MoveInput, MoveKeys};

fn keys() -> MoveKeys {
    MoveKeys { forward: false, back: false, right: false, left: false, up: false, down: false }
}

#[test]
fn movement_input_sums_opposing_keys() {
    let mut k = keys();
    k.forward = true;
    k.left = true;
    k.up = true;
    k.down = true;
    assert_eq!(movement_input(k), MoveInput { x: -1, y: 1, z: 0 });
    assert_eq!(movement_input(keys()), MoveInput { x: 0, y: 0, z: 0 });
}

#[test]
fn moving_only_with_nonzero_input() {
    assert!(!is_moving(MoveInput { x: 0, y: 0, z: 0 }));
    assert!(is_moving(MoveInput { x: 0, y: 0, z: -1 }));
    let mut k = keys();
    k.right = true;
    k.left = true;
    assert!(!is_moving(movement_input(k)));
}

#[test]
fn left_click_locks_and_escape_releases() {
    let free = CursorState { grab: GrabMode::Free, visible: true };
    let locked = CursorState { grab: GrabMode::Locked, visible: false };
    assert_eq!(grab_mouse(free, true, false), (locked, true));
    assert_eq!(grab_mouse(locked, false, true), (free, false));
    assert_eq!(grab_mouse(free, true, true), (free, true));
    assert_eq!(grab_mouse(locked, false, false), (locked, false));
}
