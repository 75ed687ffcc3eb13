use groot::input::{match_key_code, InputEvent, InputState, Key, MouseButton, TouchPhase};

fn key(k: Key, pressed: bool) -> InputEvent {
    InputEvent::Keyboard { key: k, pressed }
}

#[test]
fn key_names() {
    assert_eq!(match_key_code(Key::Space), Some("Space".to_string()));
    assert_eq!(match_key_code(Key::ArrowLeft), Some("ArrowLeft".to_string()));
    assert_eq!(match_key_code(Key::Other), None);
}

#[test]
fn axes_follow_held_keys() {
    let mut s = InputState::new();
    s.process_event(key(Key::KeyD, true));
    assert_eq!(s.axis("Horizontal"), 1);
    s.process_event(key(Key::ArrowLeft, true));
    assert_eq!(s.axis("Horizontal"), 0);
    s.process_event(key(Key::KeyD, false));
    assert_eq!(s.axis("Horizontal"), -1);
    s.process_event(key(Key::KeyW, true));
    assert_eq!(s.axis("Vertical"), 1);
    s.process_event(key(Key::ArrowDown, true));
    assert_eq!(s.axis("Vertical"), 0);
    assert_eq!(s.axis("Depth"), 0);
}

#[test]
fn pressed_keys_last_one_frame() {
    let mut s = InputState::new();
    s.process_event(key(Key::Space, true));
    assert!(s.is_key_down("Space"));
    assert!(s.is_key_pressed("Space"));
    s.process_event(key(Key::Space, true));
    s.reset_frame_input();
    assert!(s.is_key_down("Space"));
    assert!(!s.is_key_pressed("Space"));
    s.process_event(key(Key::Space, false));
    assert!(!s.is_key_down("Space"));
    s.process_event(key(Key::Other, true));
    assert!(!s.is_key_down("Other"));
}

#[test]
fn mouse_and_touch() {
    let mut s = InputState::new();
    s.process_event(InputEvent::MouseInput { button: MouseButton::Right, pressed: true });
    assert!(s.is_mouse_down(1) && s.is_mouse_pressed(1));
    s.process_event(InputEvent::MouseInput { button: MouseButton::Right, pressed: false });
    assert!(!s.is_mouse_down(1) && s.is_mouse_pressed(1));
    s.reset_frame_input();
    assert!(!s.is_mouse_pressed(1));
    s.process_event(InputEvent::MouseInput { button: MouseButton::Other, pressed: true });
    assert!(s.is_mouse_down(0));
    assert!(!s.is_mouse_down(7));
    s.process_event(InputEvent::Touch { phase: TouchPhase::Ended });
    assert!(!s.is_mouse_down(0));
    s.reset_frame_input();
    s.process_event(InputEvent::Touch { phase: TouchPhase::Started });
    assert!(s.is_mouse_down(0) && s.is_mouse_pressed(0));
    s.process_event(InputEvent::Touch { phase: TouchPhase::Cancelled });
    assert!(!s.is_mouse_down(0));
    s.process_event(InputEvent::CursorMoved);
    s.process_event(InputEvent::Other);
    assert!(s.is_mouse_pressed(0));
}
