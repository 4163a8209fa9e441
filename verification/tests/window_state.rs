use azul::window_state::{
    process_window_event, CursorPosition, ElementState, FullWindowState, KeyboardState, MouseButton,
    MouseState, WindowEvent, WindowFlags, WindowPosition, WindowTheme,
};

fn fresh_state() -> FullWindowState {
    FullWindowState {
        keyboard_state: KeyboardState {
            shift_down: false,
            ctrl_down: false,
            alt_down: false,
            super_down: false,
            current_char: None,
            current_virtual_keycode: None,
            pressed_virtual_keycodes: Vec::new(),
            pressed_scancodes: Vec::new(),
        },
        mouse_state: MouseState {
            left_down: false,
            right_down: false,
            middle_down: false,
            cursor_position: CursorPosition::Uninitialized,
        },
        flags: WindowFlags { has_focus: false, is_about_to_close: false },
        position: WindowPosition::Uninitialized,
        theme: WindowTheme::LightMode,
        hovered_file: None,
        dropped_file: None,
        focused_node: None,
    }
}

fn key(state: ElementState, vk: Option<u32>, scancode: u32) -> WindowEvent {
    WindowEvent::KeyboardInput { state, virtual_keycode: vk, scancode }
}

#[test]
fn modifiers_changed_sets_all_modifiers() {
    let mut s = fresh_state();
    process_window_event(&WindowEvent::ModifiersChanged { shift: true, ctrl: false, alt: true, logo: true }, &mut s);
    assert!(s.keyboard_state.shift_down);
    assert!(!s.keyboard_state.ctrl_down);
    assert!(s.keyboard_state.alt_down);
    assert!(s.keyboard_state.super_down);
    process_window_event(&WindowEvent::ModifiersChanged { shift: false, ctrl: true, alt: false, logo: false }, &mut s);
    assert!(!s.keyboard_state.shift_down);
    assert!(s.keyboard_state.ctrl_down);
    assert!(!s.keyboard_state.alt_down);
    assert!(!s.keyboard_state.super_down);
}

#[test]
fn key_press_records_key_and_scancode() {
    let mut s = fresh_state();
    s.keyboard_state.current_char = Some(120);
    process_window_event(&key(ElementState::Pressed, Some(7), 30), &mut s);
    assert_eq!(s.keyboard_state.pressed_virtual_keycodes, vec![7]);
    assert_eq!(s.keyboard_state.pressed_scancodes, vec![30]);
    assert_eq!(s.keyboard_state.current_virtual_keycode, Some(7));
    assert_eq!(s.keyboard_state.current_char, None);
}

#[test]
fn repeated_key_press_is_held_once() {
    let mut s = fresh_state();
    process_window_event(&key(ElementState::Pressed, Some(7), 30), &mut s);
    process_window_event(&key(ElementState::Pressed, Some(8), 31), &mut s);
    process_window_event(&key(ElementState::Pressed, Some(7), 30), &mut s);
    assert_eq!(s.keyboard_state.pressed_virtual_keycodes, vec![7, 8]);
    assert_eq!(s.keyboard_state.pressed_scancodes, vec![30, 31]);
    assert_eq!(s.keyboard_state.current_virtual_keycode, Some(7));
}

#[test]
fn key_press_then_release_restores_held_keys() {
    let mut s = fresh_state();
    process_window_event(&key(ElementState::Pressed, Some(1), 10), &mut s);
    process_window_event(&key(ElementState::Pressed, Some(2), 20), &mut s);
    process_window_event(&key(ElementState::Released, Some(2), 20), &mut s);
    assert_eq!(s.keyboard_state.pressed_virtual_keycodes, vec![1]);
    assert_eq!(s.keyboard_state.pressed_scancodes, vec![10]);
    assert_eq!(s.keyboard_state.current_virtual_keycode, None);
}

#[test]
fn releasing_a_key_keeps_the_order_of_the_others() {
    let mut s = fresh_state();
    s.keyboard_state.pressed_virtual_keycodes = vec![4, 5, 6];
    s.keyboard_state.pressed_scancodes = vec![40, 50, 60];
    process_window_event(&key(ElementState::Released, Some(5), 50), &mut s);
    assert_eq!(s.keyboard_state.pressed_virtual_keycodes, vec![4, 6]);
    assert_eq!(s.keyboard_state.pressed_scancodes, vec![40, 60]);
}

#[test]
fn releasing_a_key_that_is_not_held_changes_no_held_key() {
    let mut s = fresh_state();
    process_window_event(&key(ElementState::Pressed, Some(1), 10), &mut s);
    process_window_event(&key(ElementState::Released, Some(9), 90), &mut s);
    assert_eq!(s.keyboard_state.pressed_virtual_keycodes, vec![1]);
    assert_eq!(s.keyboard_state.pressed_scancodes, vec![10]);
    assert_eq!(s.keyboard_state.current_virtual_keycode, None);
}

#[test]
fn key_without_virtual_code_only_moves_scancodes() {
    let mut s = fresh_state();
    process_window_event(&key(ElementState::Pressed, Some(3), 33), &mut s);
    process_window_event(&key(ElementState::Pressed, None, 44), &mut s);
    assert_eq!(s.keyboard_state.pressed_virtual_keycodes, vec![3]);
    assert_eq!(s.keyboard_state.pressed_scancodes, vec![33, 44]);
    assert_eq!(s.keyboard_state.current_virtual_keycode, Some(3));
    process_window_event(&key(ElementState::Released, None, 33), &mut s);
    assert_eq!(s.keyboard_state.pressed_virtual_keycodes, vec![3]);
    assert_eq!(s.keyboard_state.pressed_scancodes, vec![44]);
    assert_eq!(s.keyboard_state.current_virtual_keycode, Some(3));
}

#[test]
fn received_character_is_stored_as_code_point() {
    let mut s = fresh_state();
    process_window_event(&WindowEvent::ReceivedCharacter('a'), &mut s);
    assert_eq!(s.keyboard_state.current_char, Some(97));
    process_window_event(&WindowEvent::ReceivedCharacter('é'), &mut s);
    assert_eq!(s.keyboard_state.current_char, Some(233));
    process_window_event(&key(ElementState::Released, Some(1), 1), &mut s);
    assert_eq!(s.keyboard_state.current_char, None);
}

#[test]
fn mouse_buttons_go_down_and_up() {
    let mut s = fresh_state();
    process_window_event(&WindowEvent::MouseInput { state: ElementState::Pressed, button: MouseButton::Right }, &mut s);
    assert!(s.mouse_state.right_down && !s.mouse_state.left_down && !s.mouse_state.middle_down);
    process_window_event(&WindowEvent::MouseInput { state: ElementState::Pressed, button: MouseButton::Middle }, &mut s);
    assert!(s.mouse_state.middle_down);
    process_window_event(&WindowEvent::MouseInput { state: ElementState::Released, button: MouseButton::Right }, &mut s);
    process_window_event(&WindowEvent::MouseInput { state: ElementState::Released, button: MouseButton::Middle }, &mut s);
    assert_eq!(s, fresh_state());
}

#[test]
fn other_mouse_button_counts_as_left() {
    let mut s = fresh_state();
    process_window_event(&WindowEvent::MouseInput { state: ElementState::Pressed, button: MouseButton::Other(4) }, &mut s);
    assert!(s.mouse_state.left_down);
    process_window_event(&WindowEvent::MouseInput { state: ElementState::Released, button: MouseButton::Left }, &mut s);
    assert!(!s.mouse_state.left_down);
}

#[test]
fn cursor_enters_moves_and_leaves() {
    let mut s = fresh_state();
    process_window_event(&WindowEvent::CursorEntered, &mut s);
    assert_eq!(s.mouse_state.cursor_position, CursorPosition::InWindow);
    process_window_event(&WindowEvent::CursorLeft, &mut s);
    assert_eq!(s.mouse_state.cursor_position, CursorPosition::OutOfWindow);
    process_window_event(&WindowEvent::CursorMoved, &mut s);
    assert_eq!(s.mouse_state.cursor_position, CursorPosition::InWindow);
    process_window_event(&WindowEvent::CursorLeft, &mut s);
    process_window_event(&WindowEvent::Touch, &mut s);
    assert_eq!(s.mouse_state.cursor_position, CursorPosition::InWindow);
}

#[test]
fn window_move_records_position() {
    let mut s = fresh_state();
    process_window_event(&WindowEvent::Moved { x: -20, y: 300 }, &mut s);
    assert_eq!(s.position, WindowPosition::Initialized { x: -20, y: 300 });
}

#[test]
fn hovered_then_dropped_file() {
    let mut s = fresh_state();
    process_window_event(&WindowEvent::HoveredFile("/tmp/a.txt".to_string()), &mut s);
    assert_eq!(s.hovered_file.as_deref(), Some("/tmp/a.txt"));
    assert_eq!(s.dropped_file, None);
    process_window_event(&WindowEvent::DroppedFile("/tmp/a.txt".to_string()), &mut s);
    assert_eq!(s.hovered_file, None);
    assert_eq!(s.dropped_file.as_deref(), Some("/tmp/a.txt"));
}

#[test]
fn cancelled_hover_clears_both_files() {
    let mut s = fresh_state();
    s.dropped_file = Some("/old".to_string());
    process_window_event(&WindowEvent::HoveredFile("/tmp/b".to_string()), &mut s);
    process_window_event(&WindowEvent::HoveredFileCancelled, &mut s);
    assert_eq!(s.hovered_file, None);
    assert_eq!(s.dropped_file, None);
}

#[test]
fn focus_close_and_theme() {
    let mut s = fresh_state();
    process_window_event(&WindowEvent::Focused(true), &mut s);
    assert!(s.flags.has_focus);
    process_window_event(&WindowEvent::Focused(false), &mut s);
    assert!(!s.flags.has_focus);
    process_window_event(&WindowEvent::ThemeChanged(WindowTheme::DarkMode), &mut s);
    assert_eq!(s.theme, WindowTheme::DarkMode);
    process_window_event(&WindowEvent::CloseRequested, &mut s);
    assert!(s.flags.is_about_to_close);
}

#[test]
fn close_request_sticks_through_later_events() {
    let mut s = fresh_state();
    process_window_event(&WindowEvent::CloseRequested, &mut s);
    process_window_event(&WindowEvent::Focused(true), &mut s);
    process_window_event(&WindowEvent::CursorLeft, &mut s);
    process_window_event(&key(ElementState::Pressed, Some(1), 2), &mut s);
    assert!(s.flags.is_about_to_close);
}

#[test]
fn ignored_events_leave_the_state_unchanged() {
    let mut s = fresh_state();
    process_window_event(&key(ElementState::Pressed, Some(1), 2), &mut s);
    let events = vec![
        WindowEvent::Resized,
        WindowEvent::ScaleFactorChanged,
        WindowEvent::MouseWheel,
        WindowEvent::TouchpadPressure,
        WindowEvent::AxisMotion,
        WindowEvent::Destroyed,
    ];
    for e in events.iter() {
        let mut t = fresh_state();
        process_window_event(&key(ElementState::Pressed, Some(1), 2), &mut t);
        process_window_event(e, &mut t);
        assert_eq!(t, s);
    }
}
