use gouache::input::{Key, Modifiers, MouseButton, MouseState};

#[test]
fn defaults_have_nothing_pressed() {
    let m = Modifiers::default();
    assert!(!m.shift && !m.ctrl && !m.alt && !m.meta);
    let s = MouseState::default();
    assert_eq!(s, MouseState { left: false, middle: false, right: false });
}

#[test]
fn keys_and_buttons_compare() {
    assert_eq!(Key::A, Key::A);
    assert_ne!(Key::A, Key::NumpadEnter);
    assert_ne!(MouseButton::Left, MouseButton::Right);
}
