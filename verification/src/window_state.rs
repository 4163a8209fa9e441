//! The state that the framework keeps for each open window, and how a window
//! event changes it.
use vstd::prelude::*;

verus! {

/// Whether a key or a mouse button went down or up.
#[derive(Clone, Copy, Debug, PartialEq, Eq)]
pub enum ElementState {
    Pressed,
    Released,
}

/// A mouse button, as the windowing system reports it.
#[derive(Clone, Copy, Debug, PartialEq, Eq)]
pub enum MouseButton {
    Left,
    Right,
    Middle,
    Other(u16),
}

/// The colour theme that the operating system asks the window to use.
#[derive(Clone, Copy, Debug, PartialEq, Eq)]
pub enum WindowTheme {
    DarkMode,
    LightMode,
}

/// Where the mouse cursor is, relative to the window. The logical
/// coordinates of a cursor inside the window are kept by the windowing
/// layer, next to this state.
#[derive(Clone, Copy, Debug, PartialEq, Eq)]
pub enum CursorPosition {
    OutOfWindow,
    Uninitialized,
    InWindow,
}

/// The position of the window on the screen, in physical pixels.
#[derive(Clone, Copy, Debug, PartialEq, Eq)]
pub enum WindowPosition {
    Uninitialized,
    Initialized { x: i32, y: i32 },
}

/// State of the mouse buttons and of the cursor.
#[derive(Clone, Copy, Debug, PartialEq, Eq)]
pub struct MouseState {
    pub left_down: bool,
    pub right_down: bool,
    pub middle_down: bool,
    pub cursor_position: CursorPosition,
}

/// Flags of a window that events can change.
#[derive(Clone, Copy, Debug, PartialEq, Eq)]
pub struct WindowFlags {
    pub has_focus: bool,
    pub is_about_to_close: bool,
}

/// State of the keyboard: modifiers, the last character and key, and the
/// keys that are held down. A key code is the windowing system's virtual key
/// code, a scan code its hardware scan code.
#[derive(Debug, PartialEq, Eq)]
pub struct KeyboardState {
    pub shift_down: bool,
    pub ctrl_down: bool,
    pub alt_down: bool,
    pub super_down: bool,
    pub current_char: Option<u32>,
    pub current_virtual_keycode: Option<u32>,
    pub pressed_virtual_keycodes: Vec<u32>,
    pub pressed_scancodes: Vec<u32>,
}

/// The mathematical value of a [`KeyboardState`].
pub struct KeyboardStateView {
    pub shift_down: bool,
    pub ctrl_down: bool,
    pub alt_down: bool,
    pub super_down: bool,
    pub current_char: Option<u32>,
    pub current_virtual_keycode: Option<u32>,
    pub pressed_virtual_keycodes: Seq<u32>,
    pub pressed_scancodes: Seq<u32>,
}

impl View for KeyboardState {
    type V = KeyboardStateView;

    open spec fn view(&self) -> KeyboardStateView {
        KeyboardStateView {
            shift_down: self.shift_down,
            ctrl_down: self.ctrl_down,
            alt_down: self.alt_down,
            super_down: self.super_down,
            current_char: self.current_char,
            current_virtual_keycode: self.current_virtual_keycode,
            pressed_virtual_keycodes: self.pressed_virtual_keycodes@,
            pressed_scancodes: self.pressed_scancodes@,
        }
    }
}

/// A node of a window's DOM: which DOM, and which node in it.
#[derive(Clone, Copy, Debug, PartialEq, Eq)]
pub struct DomNodeId {
    pub dom: usize,
    pub node: usize,
}

/// The state that the framework keeps for one window.
#[derive(Debug, PartialEq, Eq)]
pub struct FullWindowState {
    pub keyboard_state: KeyboardState,
    pub mouse_state: MouseState,
    pub flags: WindowFlags,
    pub position: WindowPosition,
    pub theme: WindowTheme,
    pub hovered_file: Option<String>,
    pub dropped_file: Option<String>,
    pub focused_node: Option<DomNodeId>,
}

/// The mathematical value of a [`FullWindowState`].
pub struct FullWindowStateView {
    pub keyboard_state: KeyboardStateView,
    pub mouse_state: MouseState,
    pub flags: WindowFlags,
    pub position: WindowPosition,
    pub theme: WindowTheme,
    pub hovered_file: Option<Seq<char>>,
    pub dropped_file: Option<Seq<char>>,
    pub focused_node: Option<DomNodeId>,
}

/// The characters of an optional string.
pub open spec fn opt_string_view(s: Option<String>) -> Option<Seq<char>> {
    match s {
        Some(s) => Some(s@),
        None => None,
    }
}

impl View for FullWindowState {
    type V = FullWindowStateView;

    open spec fn view(&self) -> FullWindowStateView {
        FullWindowStateView {
            keyboard_state: self.keyboard_state@,
            mouse_state: self.mouse_state,
            flags: self.flags,
            position: self.position,
            theme: self.theme,
            hovered_file: opt_string_view(self.hovered_file),
            dropped_file: opt_string_view(self.dropped_file),
            focused_node: self.focused_node,
        }
    }
}

/// An event that the windowing system delivers to one window. Events that
/// only move floating-point quantities (sizes, scale factors, cursor
/// coordinates, scroll deltas) carry no data here: the windowing layer
/// applies those quantities itself.
#[derive(Debug, PartialEq, Eq)]
pub enum WindowEvent {
    ModifiersChanged { shift: bool, ctrl: bool, alt: bool, logo: bool },
    Resized,
    ScaleFactorChanged,
    Moved { x: i32, y: i32 },
    CursorMoved,
    CursorLeft,
    CursorEntered,
    KeyboardInput { state: ElementState, virtual_keycode: Option<u32>, scancode: u32 },
    ReceivedCharacter(char),
    MouseInput { state: ElementState, button: MouseButton },
    MouseWheel,
    HoveredFile(String),
    HoveredFileCancelled,
    DroppedFile(String),
    Focused(bool),
    CloseRequested,
    Touch,
    TouchpadPressure,
    ThemeChanged(WindowTheme),
    AxisMotion,
    Destroyed,
}

/// `keys` with `key` added at the end, unless it is there already.
pub open spec fn key_set_insert(keys: Seq<u32>, key: u32) -> Seq<u32> {
    if keys.contains(key) {
        keys
    } else {
        keys.push(key)
    }
}

/// `keys` without any occurrence of `key`, the others in their order.
pub open spec fn key_set_remove(keys: Seq<u32>, key: u32) -> Seq<u32> {
    keys.filter(other_than(key))
}

/// The predicate that holds of every key but `key`.
pub open spec fn other_than(key: u32) -> spec_fn(u32) -> bool {
    |k: u32| k != key
}

/// The keyboard state after a key went down or up.
pub open spec fn keyboard_after_input(
    kb: KeyboardStateView,
    state: ElementState,
    virtual_keycode: Option<u32>,
    scancode: u32,
) -> KeyboardStateView {
    match state {
        ElementState::Pressed => KeyboardStateView {
            pressed_virtual_keycodes: match virtual_keycode {
                Some(vk) => key_set_insert(kb.pressed_virtual_keycodes, vk),
                None => kb.pressed_virtual_keycodes,
            },
            current_virtual_keycode: match virtual_keycode {
                Some(vk) => Some(vk),
                None => kb.current_virtual_keycode,
            },
            pressed_scancodes: key_set_insert(kb.pressed_scancodes, scancode),
            current_char: None,
            ..kb
        },
        ElementState::Released => KeyboardStateView {
            pressed_virtual_keycodes: match virtual_keycode {
                Some(vk) => key_set_remove(kb.pressed_virtual_keycodes, vk),
                None => kb.pressed_virtual_keycodes,
            },
            current_virtual_keycode: match virtual_keycode {
                Some(vk) => None,
                None => kb.current_virtual_keycode,
            },
            pressed_scancodes: key_set_remove(kb.pressed_scancodes, scancode),
            current_char: None,
            ..kb
        },
    }
}

/// The mouse state after a button went down or up. A button other than the
/// left, right and middle one counts as the left one.
pub open spec fn mouse_after_input(m: MouseState, state: ElementState, button: MouseButton) -> MouseState {
    let down = state == ElementState::Pressed;
    match button {
        MouseButton::Right => MouseState { right_down: down, ..m },
        MouseButton::Middle => MouseState { middle_down: down, ..m },
        _ => MouseState { left_down: down, ..m },
    }
}

/// The state of a window after it received `event`.
pub open spec fn window_state_after(s: FullWindowStateView, event: WindowEvent) -> FullWindowStateView {
    match event {
        WindowEvent::ModifiersChanged { shift, ctrl, alt, logo } => FullWindowStateView {
            keyboard_state: KeyboardStateView {
                shift_down: shift,
                ctrl_down: ctrl,
                alt_down: alt,
                super_down: logo,
                ..s.keyboard_state
            },
            ..s
        },
        WindowEvent::Moved { x, y } => FullWindowStateView {
            position: WindowPosition::Initialized { x, y },
            ..s
        },
        WindowEvent::CursorMoved | WindowEvent::CursorEntered | WindowEvent::Touch => FullWindowStateView {
            mouse_state: MouseState { cursor_position: CursorPosition::InWindow, ..s.mouse_state },
            ..s
        },
        WindowEvent::CursorLeft => FullWindowStateView {
            mouse_state: MouseState { cursor_position: CursorPosition::OutOfWindow, ..s.mouse_state },
            ..s
        },
        WindowEvent::KeyboardInput { state, virtual_keycode, scancode } => FullWindowStateView {
            keyboard_state: keyboard_after_input(s.keyboard_state, state, virtual_keycode, scancode),
            ..s
        },
        WindowEvent::ReceivedCharacter(c) => FullWindowStateView {
            keyboard_state: KeyboardStateView { current_char: Some(c as u32), ..s.keyboard_state },
            ..s
        },
        WindowEvent::MouseInput { state, button } => FullWindowStateView {
            mouse_state: mouse_after_input(s.mouse_state, state, button),
            ..s
        },
        WindowEvent::HoveredFile(path) => FullWindowStateView {
            hovered_file: Some(path@),
            dropped_file: None,
            ..s
        },
        WindowEvent::HoveredFileCancelled => FullWindowStateView {
            hovered_file: None,
            dropped_file: None,
            ..s
        },
        WindowEvent::DroppedFile(path) => FullWindowStateView {
            hovered_file: None,
            dropped_file: Some(path@),
            ..s
        },
        WindowEvent::Focused(f) => FullWindowStateView {
            flags: WindowFlags { has_focus: f, ..s.flags },
            ..s
        },
        WindowEvent::CloseRequested => FullWindowStateView {
            flags: WindowFlags { is_about_to_close: true, ..s.flags },
            ..s
        },
        WindowEvent::ThemeChanged(t) => FullWindowStateView { theme: t, ..s },
        _ => s,
    }
}


/// Adds `key` to the held-down keys, unless it is there already.
pub fn insert_key(keys: &mut Vec<u32>, key: u32)
    ensures
        final(keys)@ == key_set_insert(old(keys)@, key),
{
    let mut i: usize = 0;
    let n = keys.len();
    while i < n
        invariant
            n == keys@.len(),
            keys@ == old(keys)@,
            0 <= i <= n,
            forall|j: int| 0 <= j < i ==> keys@[j] != key,
        decreases n - i,
    {
        if keys[i] == key {
            return;
        }
        i = i + 1;
    }
    keys.push(key);
}

/// Removes every occurrence of `key` from the held-down keys.
pub fn remove_key(keys: &mut Vec<u32>, key: u32)
    ensures
        final(keys)@ == key_set_remove(old(keys)@, key),
{
    let ghost pred = other_than(key);
    let mut kept: Vec<u32> = Vec::new();
    let n = keys.len();
    let mut i: usize = 0;
    while i < n
        invariant
            n == keys@.len(),
            keys@ == old(keys)@,
            0 <= i <= n,
            kept@ == keys@.take(i as int).filter(pred),
            pred == other_than(key),
        decreases n - i,
    {
        let k = keys[i];
        proof {
            assert(keys@.take(i + 1) =~= keys@.take(i as int).push(k));
            keys@.take(i as int).lemma_filter_push(k, pred);
            assert(pred(k) == (k != key));
        }
        if k != key {
            kept.push(k);
        }
        i = i + 1;
    }
    proof {
        assert(keys@.take(n as int) =~= keys@);
    }
    *keys = kept;
}

/// Updates the keyboard state with a key that went down or up.
pub fn process_keyboard_input(
    keyboard_state: &mut KeyboardState,
    state: ElementState,
    virtual_keycode: Option<u32>,
    scancode: u32,
)
    ensures
        final(keyboard_state)@ == keyboard_after_input(old(keyboard_state)@, state, virtual_keycode, scancode),
{
    match state {
        ElementState::Pressed => {
            if let Some(vk) = virtual_keycode {
                insert_key(&mut keyboard_state.pressed_virtual_keycodes, vk);
                keyboard_state.current_virtual_keycode = Some(vk);
            }
            insert_key(&mut keyboard_state.pressed_scancodes, scancode);
            keyboard_state.current_char = None;
        },
        ElementState::Released => {
            if let Some(vk) = virtual_keycode {
                remove_key(&mut keyboard_state.pressed_virtual_keycodes, vk);
                keyboard_state.current_virtual_keycode = None;
            }
            remove_key(&mut keyboard_state.pressed_scancodes, scancode);
            keyboard_state.current_char = None;
        },
    }
}

/// Updates the state of a window with an event that the window received.
#[verifier::rlimit(40)]
pub fn process_window_event(event: &WindowEvent, current_window_state: &mut FullWindowState)
    ensures
        final(current_window_state)@ == window_state_after(old(current_window_state)@, *event),
{
    match event {
        WindowEvent::ModifiersChanged { shift, ctrl, alt, logo } => {
            current_window_state.keyboard_state.shift_down = *shift;
            current_window_state.keyboard_state.ctrl_down = *ctrl;
            current_window_state.keyboard_state.alt_down = *alt;
            current_window_state.keyboard_state.super_down = *logo;
        },
        WindowEvent::Moved { x, y } => {
            current_window_state.position = WindowPosition::Initialized { x: *x, y: *y };
        },
        WindowEvent::CursorMoved | WindowEvent::CursorEntered | WindowEvent::Touch => {
            current_window_state.mouse_state.cursor_position = CursorPosition::InWindow;
        },
        WindowEvent::CursorLeft => {
            current_window_state.mouse_state.cursor_position = CursorPosition::OutOfWindow;
        },
        WindowEvent::KeyboardInput { state, virtual_keycode, scancode } => {
            process_keyboard_input(&mut current_window_state.keyboard_state, *state, *virtual_keycode, *scancode);
        },
        WindowEvent::ReceivedCharacter(c) => {
            current_window_state.keyboard_state.current_char = Some(*c as u32);
        },
        WindowEvent::MouseInput { state, button } => {
            let down = match state {
                ElementState::Pressed => true,
                ElementState::Released => false,
            };
            match button {
                MouseButton::Right => current_window_state.mouse_state.right_down = down,
                MouseButton::Middle => current_window_state.mouse_state.middle_down = down,
                _ => current_window_state.mouse_state.left_down = down,
            }
        },
        WindowEvent::HoveredFile(path) => {
            current_window_state.hovered_file = Some(path.clone());
            current_window_state.dropped_file = None;
        },
        WindowEvent::HoveredFileCancelled => {
            current_window_state.hovered_file = None;
            current_window_state.dropped_file = None;
        },
        WindowEvent::DroppedFile(path) => {
            current_window_state.hovered_file = None;
            current_window_state.dropped_file = Some(path.clone());
        },
        WindowEvent::Focused(f) => {
            current_window_state.flags.has_focus = *f;
        },
        WindowEvent::CloseRequested => {
            current_window_state.flags.is_about_to_close = true;
        },
        WindowEvent::ThemeChanged(t) => {
            current_window_state.theme = *t;
        },
        _ => {},
    }
}


/// Removing a key that is not held leaves the held keys as they are.
proof fn lemma_remove_absent(keys: Seq<u32>, key: u32)
    requires
        !keys.contains(key),
    ensures
        key_set_remove(keys, key) == keys,
    decreases keys.len(),
{
    reveal(Seq::filter);
    if keys.len() > 0 {
        let rest = keys.drop_last();
        assert(!rest.contains(key)) by {
            if rest.contains(key) {
                let i = choose|i: int| 0 <= i < rest.len() && rest[i] == key;
                assert(keys[i] == key);
            }
        }
        lemma_remove_absent(rest, key);
        assert(keys.last() != key) by {
            assert(keys[keys.len() - 1] == keys.last());
        }
        assert(other_than(key)(keys.last()));
        assert(rest.push(keys.last()) =~= keys);
    }
}

/// Removing a key keeps held keys free of repetitions, and the key is
/// gone afterwards.
proof fn lemma_remove_no_duplicates(keys: Seq<u32>, key: u32)
    requires
        keys.no_duplicates(),
    ensures
        key_set_remove(keys, key).no_duplicates(),
        !key_set_remove(keys, key).contains(key),
    decreases keys.len(),
{
    reveal(Seq::filter);
    let p = other_than(key);
    if keys.len() > 0 {
        let rest = keys.drop_last();
        assert(rest.no_duplicates()) by {
            assert forall|i: int, j: int| 0 <= i < rest.len() && 0 <= j < rest.len() && i != j implies rest[i] != rest[j] by {
                assert(rest[i] == keys[i] && rest[j] == keys[j]);
            }
        }
        lemma_remove_no_duplicates(rest, key);
        let fr = rest.filter(p);
        if p(keys.last()) {
            assert(!fr.contains(keys.last())) by {
                if fr.contains(keys.last()) {
                    rest.lemma_filter_contains_rev(p, keys.last());
                    let i = choose|i: int| 0 <= i < rest.len() && rest[i] == keys.last();
                    assert(keys[i] == keys[keys.len() - 1]);
                }
            }
            assert(key_set_remove(keys, key) == fr.push(keys.last()));
            assert forall|i: int, j: int| 0 <= i < fr.len() + 1 && 0 <= j < fr.len() + 1 && i != j implies fr.push(
                keys.last(),
            )[i] != fr.push(keys.last())[j] by {
                if i < fr.len() && j < fr.len() {
                } else if i < fr.len() {
                    assert(fr.contains(fr[i]));
                } else {
                    assert(fr.contains(fr[j]));
                }
            }
            assert(!fr.push(keys.last()).contains(key)) by {
                if fr.push(keys.last()).contains(key) {
                    let i = choose|i: int| 0 <= i < fr.len() + 1 && fr.push(keys.last())[i] == key;
                    if i < fr.len() {
                        assert(fr.contains(key));
                    }
                }
            }
        } else {
            assert(key_set_remove(keys, key) == fr);
        }
    }
}

/// Law: a key that goes down and then up again leaves the held keys as
/// they were before it went down.
pub proof fn law_key_press_then_release(s: FullWindowStateView, virtual_keycode: u32, scancode: u32)
    requires
        !s.keyboard_state.pressed_virtual_keycodes.contains(virtual_keycode),
        !s.keyboard_state.pressed_scancodes.contains(scancode),
    ensures
        ({
            let pressed = window_state_after(
                s,
                WindowEvent::KeyboardInput { state: ElementState::Pressed, virtual_keycode: Some(virtual_keycode), scancode },
            );
            let released = window_state_after(
                pressed,
                WindowEvent::KeyboardInput { state: ElementState::Released, virtual_keycode: Some(virtual_keycode), scancode },
            );
            &&& pressed.keyboard_state.pressed_virtual_keycodes.contains(virtual_keycode)
            &&& pressed.keyboard_state.pressed_scancodes.contains(scancode)
            &&& released.keyboard_state.pressed_virtual_keycodes == s.keyboard_state.pressed_virtual_keycodes
            &&& released.keyboard_state.pressed_scancodes == s.keyboard_state.pressed_scancodes
            &&& released.keyboard_state.current_virtual_keycode is None
        }),
{
    let vks = s.keyboard_state.pressed_virtual_keycodes;
    let scs = s.keyboard_state.pressed_scancodes;
    assert(vks.push(virtual_keycode)[vks.len() as int] == virtual_keycode);
    assert(scs.push(scancode)[scs.len() as int] == scancode);
    vks.lemma_filter_push(virtual_keycode, other_than(virtual_keycode));
    scs.lemma_filter_push(scancode, other_than(scancode));
    lemma_remove_absent(vks, virtual_keycode);
    lemma_remove_absent(scs, scancode);
}

/// Law: the held keys never repeat a key, whatever events arrive; a key
/// that went down is held, and a key that went up is not.
pub proof fn law_held_keys_have_no_duplicates(s: FullWindowStateView, event: WindowEvent)
    requires
        s.keyboard_state.pressed_virtual_keycodes.no_duplicates(),
        s.keyboard_state.pressed_scancodes.no_duplicates(),
    ensures
        window_state_after(s, event).keyboard_state.pressed_virtual_keycodes.no_duplicates(),
        window_state_after(s, event).keyboard_state.pressed_scancodes.no_duplicates(),
        event matches WindowEvent::KeyboardInput { state, virtual_keycode, scancode } ==> {
            let kb = window_state_after(s, event).keyboard_state;
            &&& (state == ElementState::Pressed ==> kb.pressed_scancodes.contains(scancode))
            &&& (state == ElementState::Released ==> !kb.pressed_scancodes.contains(scancode))
            &&& (virtual_keycode is Some && state == ElementState::Pressed ==> kb.pressed_virtual_keycodes.contains(virtual_keycode->0))
            &&& (virtual_keycode is Some && state == ElementState::Released ==> !kb.pressed_virtual_keycodes.contains(virtual_keycode->0))
        },
{
    if let WindowEvent::KeyboardInput { state, virtual_keycode, scancode } = event {
        let vks = s.keyboard_state.pressed_virtual_keycodes;
        let scs = s.keyboard_state.pressed_scancodes;
        match state {
            ElementState::Pressed => {
                assert(key_set_insert(scs, scancode).no_duplicates()) by {
                    if !scs.contains(scancode) {
                        assert forall|i: int, j: int| 0 <= i < scs.len() + 1 && 0 <= j < scs.len() + 1 && i != j implies
                            scs.push(scancode)[i] != scs.push(scancode)[j] by {
                            if i == scs.len() {
                                assert(scs.contains(scs[j]));
                            } else if j == scs.len() {
                                assert(scs.contains(scs[i]));
                            }
                        }
                    }
                }
                assert(key_set_insert(scs, scancode).contains(scancode)) by {
                    if !scs.contains(scancode) {
                        assert(scs.push(scancode)[scs.len() as int] == scancode);
                    }
                }
                if let Some(vk) = virtual_keycode {
                    assert(key_set_insert(vks, vk).no_duplicates()) by {
                        if !vks.contains(vk) {
                            assert forall|i: int, j: int| 0 <= i < vks.len() + 1 && 0 <= j < vks.len() + 1 && i != j implies
                                vks.push(vk)[i] != vks.push(vk)[j] by {
                                if i == vks.len() {
                                    assert(vks.contains(vks[j]));
                                } else if j == vks.len() {
                                    assert(vks.contains(vks[i]));
                                }
                            }
                        }
                    }
                    assert(key_set_insert(vks, vk).contains(vk)) by {
                        if !vks.contains(vk) {
                            assert(vks.push(vk)[vks.len() as int] == vk);
                        }
                    }
                }
            },
            ElementState::Released => {
                lemma_remove_no_duplicates(scs, scancode);
                if let Some(vk) = virtual_keycode {
                    lemma_remove_no_duplicates(vks, vk);
                }
            },
        }
    }
}

/// Law: after the modifiers change, each modifier flag is the state of its
/// own key (`super` is the logo key), and nothing else changes.
pub proof fn law_modifiers_follow_their_keys(s: FullWindowStateView, shift: bool, ctrl: bool, alt: bool, logo: bool)
    ensures
        ({
            let after = window_state_after(s, WindowEvent::ModifiersChanged { shift, ctrl, alt, logo });
            &&& after.keyboard_state.shift_down == shift
            &&& after.keyboard_state.ctrl_down == ctrl
            &&& after.keyboard_state.alt_down == alt
            &&& after.keyboard_state.super_down == logo
            &&& after.keyboard_state.current_char == s.keyboard_state.current_char
            &&& after.keyboard_state.current_virtual_keycode == s.keyboard_state.current_virtual_keycode
            &&& after.keyboard_state.pressed_virtual_keycodes == s.keyboard_state.pressed_virtual_keycodes
            &&& after.keyboard_state.pressed_scancodes == s.keyboard_state.pressed_scancodes
            &&& after.mouse_state == s.mouse_state
            &&& after.flags == s.flags
            &&& after.position == s.position
            &&& after.theme == s.theme
            &&& after.hovered_file == s.hovered_file
            &&& after.dropped_file == s.dropped_file
            &&& after.focused_node == s.focused_node
        }),
{
}

/// Law: a mouse button that goes down and then up again leaves the mouse
/// buttons as they were before, when it was up.
pub proof fn law_button_press_then_release(s: FullWindowStateView, button: MouseButton)
    requires
        !s.mouse_state.left_down,
        !s.mouse_state.right_down,
        !s.mouse_state.middle_down,
    ensures
        ({
            let pressed = window_state_after(s, WindowEvent::MouseInput { state: ElementState::Pressed, button });
            let released = window_state_after(pressed, WindowEvent::MouseInput { state: ElementState::Released, button });
            &&& (pressed.mouse_state.left_down || pressed.mouse_state.right_down || pressed.mouse_state.middle_down)
            &&& released == s
        }),
{
}

/// Law: once a window has been asked to close, it stays about to close,
/// whatever events follow.
pub proof fn law_close_request_sticks(s: FullWindowStateView, event: WindowEvent)
    requires
        s.flags.is_about_to_close,
    ensures
        window_state_after(s, event).flags.is_about_to_close,
{
}

/// Law: events that only move floating-point quantities, and events that
/// the framework ignores, leave the state unchanged.
pub proof fn law_ignored_events_keep_state(s: FullWindowStateView, event: WindowEvent)
    requires
        event is Resized || event is ScaleFactorChanged || event is MouseWheel || event is TouchpadPressure
            || event is AxisMotion || event is Destroyed,
    ensures
        window_state_after(s, event) == s,
{
}

/// Law: a file that is hovered over the window and then dropped leaves no
/// hovered file and the dropped one; a cancelled hover leaves neither.
pub proof fn law_hover_then_drop(s: FullWindowStateView, hovered: String, dropped: String)
    ensures
        ({
            let h = window_state_after(s, WindowEvent::HoveredFile(hovered));
            &&& h.hovered_file == Some(hovered@)
            &&& h.dropped_file is None
            &&& window_state_after(h, WindowEvent::DroppedFile(dropped)).hovered_file is None
            &&& window_state_after(h, WindowEvent::DroppedFile(dropped)).dropped_file == Some(dropped@)
            &&& window_state_after(h, WindowEvent::HoveredFileCancelled).hovered_file is None
            &&& window_state_after(h, WindowEvent::HoveredFileCancelled).dropped_file is None
        }),
{
}

} // verus!
