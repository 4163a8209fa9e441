use azul::event_loop::{
    apply_focus_update, combine_update_screen, stronger_update, next_control_flow, task_follow_up, update_for_all_windows,
    window_should_close, windows_to_close, CallbackFollowUp, ControlFlowDecision, LayoutChanges, TaskFollowUp,
    TimerSchedule, UpdateScreen, WindowEventOutcome, MAX_TIMER_WAIT_NANOS, THREAD_POLL_INTERVAL_NANOS,
};
use azul::event_loop::UpdateScreen::{DoNothing, RegenerateStyledDomForAllWindows, RegenerateStyledDomForCurrentWindow};
use azul::window_state::{
    CursorPosition, DomNodeId, FullWindowState, KeyboardState, MouseState, WindowFlags, WindowPosition, WindowTheme,
};

fn every_frame() -> TimerSchedule {
    TimerSchedule { has_interval: false, next_run_in: Some(5) }
}

fn interval(next: Option<u64>) -> TimerSchedule {
    TimerSchedule { has_interval: true, next_run_in: next }
}

#[test]
fn task_follow_up_per_result() {
    assert_eq!(task_follow_up(UpdateScreen::DoNothing), TaskFollowUp::Relayout);
    assert_eq!(task_follow_up(UpdateScreen::RegenerateStyledDomForCurrentWindow), TaskFollowUp::RegenerateWindow);
    assert_eq!(task_follow_up(UpdateScreen::RegenerateStyledDomForAllWindows), TaskFollowUp::RegenerateAllLater);
}

#[test]
fn combine_keeps_request_for_all_windows() {
    assert_eq!(combine_update_screen(DoNothing, RegenerateStyledDomForAllWindows), RegenerateStyledDomForAllWindows);
    assert_eq!(
        combine_update_screen(RegenerateStyledDomForCurrentWindow, RegenerateStyledDomForAllWindows),
        RegenerateStyledDomForAllWindows
    );
    assert_eq!(combine_update_screen(RegenerateStyledDomForAllWindows, DoNothing), RegenerateStyledDomForAllWindows);
    assert_eq!(combine_update_screen(DoNothing, RegenerateStyledDomForCurrentWindow), DoNothing);
    assert_eq!(combine_update_screen(DoNothing, DoNothing), DoNothing);
}

#[test]
fn all_windows_regenerate_only_when_one_asks() {
    assert_eq!(update_for_all_windows(&vec![]), DoNothing);
    assert_eq!(update_for_all_windows(&vec![DoNothing, RegenerateStyledDomForCurrentWindow]), DoNothing);
    assert_eq!(
        update_for_all_windows(&vec![DoNothing, RegenerateStyledDomForAllWindows, RegenerateStyledDomForCurrentWindow]),
        RegenerateStyledDomForAllWindows
    );
}

#[test]
fn callbacks_run_on_first_frame_or_events() {
    assert!(WindowEventOutcome::callbacks_needed(true, true, false));
    assert!(WindowEventOutcome::callbacks_needed(false, false, false));
    assert!(!WindowEventOutcome::callbacks_needed(true, false, false));
    assert!(!WindowEventOutcome::callbacks_needed(false, true, true));
}

#[test]
fn regenerate_request_rebuilds_and_redraws() {
    let mut o = WindowEventOutcome::new();
    let f = o.after_callbacks(false, false, false, UpdateScreen::RegenerateStyledDomForCurrentWindow);
    assert_eq!(f, CallbackFollowUp::RegenerateStyledDom);
    assert_eq!(o.finish(), (true, true));
}

#[test]
fn changed_layout_callback_regenerates() {
    let mut o = WindowEventOutcome::new();
    let f = o.after_callbacks(false, false, true, UpdateScreen::DoNothing);
    assert_eq!(f, CallbackFollowUp::RegenerateStyledDom);
    assert!(o.need_regenerate_display_list);
}

#[test]
fn request_for_all_windows_regenerates_every_window() {
    let mut o = WindowEventOutcome::new();
    let f = o.after_callbacks(false, false, false, UpdateScreen::RegenerateStyledDomForAllWindows);
    assert_eq!(f, CallbackFollowUp::RegenerateAllWindows);
    assert_eq!(o.finish(), (true, true));
}

#[test]
fn relayout_results_decide_redraw() {
    let mut o = WindowEventOutcome::new();
    assert_eq!(o.after_callbacks(false, true, false, UpdateScreen::DoNothing), CallbackFollowUp::Relayout);
    assert_eq!(o.finish(), (false, true));
    let mut o = WindowEventOutcome::new();
    assert_eq!(o.after_callbacks(false, false, false, UpdateScreen::DoNothing), CallbackFollowUp::Relayout);
    o.after_relayout(LayoutChanges { need_regenerate_display_list: false, need_redraw: true });
    assert_eq!(o.finish(), (false, true));
    let mut o = WindowEventOutcome::new();
    o.after_relayout(LayoutChanges { need_regenerate_display_list: true, need_redraw: false });
    assert_eq!(o.finish(), (true, true));
    let mut o = WindowEventOutcome::new();
    o.after_relayout(LayoutChanges { need_regenerate_display_list: false, need_redraw: false });
    assert_eq!(o.finish(), (false, false));
}

#[test]
fn outcome_flags_never_reset() {
    let mut o = WindowEventOutcome::new();
    o.after_callbacks(true, true, false, UpdateScreen::RegenerateStyledDomForCurrentWindow);
    o.after_callbacks(false, false, false, UpdateScreen::DoNothing);
    o.after_relayout(LayoutChanges { need_regenerate_display_list: false, need_redraw: false });
    assert!(o.need_regenerate_display_list && o.should_scroll_render && o.should_callback_render);
}

#[test]
fn focus_update_sets_or_keeps_focus() {
    let mut s = FullWindowState {
        keyboard_state: KeyboardState {
            shift_down: false,
            ctrl_down: false,
            alt_down: false,
            super_down: false,
            current_char: None,
            current_virtual_keycode: None,
            pressed_virtual_keycodes: Vec::new(),
            pressed_scancodes: Vec::new(),
        },
        mouse_state: MouseState { left_down: false, right_down: false, middle_down: false, cursor_position: CursorPosition::Uninitialized },
        flags: WindowFlags { has_focus: true, is_about_to_close: false },
        position: WindowPosition::Uninitialized,
        theme: WindowTheme::DarkMode,
        hovered_file: None,
        dropped_file: None,
        focused_node: Some(DomNodeId { dom: 0, node: 3 }),
    };
    apply_focus_update(&mut s, None);
    assert_eq!(s.focused_node, Some(DomNodeId { dom: 0, node: 3 }));
    apply_focus_update(&mut s, Some(Some(DomNodeId { dom: 0, node: 5 })));
    assert_eq!(s.focused_node, Some(DomNodeId { dom: 0, node: 5 }));
    apply_focus_update(&mut s, Some(None));
    assert_eq!(s.focused_node, None);
}

#[test]
fn no_window_means_exit() {
    assert_eq!(next_control_flow(false, &vec![vec![every_frame()]], true), ControlFlowDecision::Exit);
    assert_eq!(next_control_flow(false, &vec![], false), ControlFlowDecision::Exit);
}

#[test]
fn nothing_running_means_wait() {
    assert_eq!(next_control_flow(true, &vec![], false), ControlFlowDecision::Wait);
    assert_eq!(next_control_flow(true, &vec![vec![], vec![]], false), ControlFlowDecision::Wait);
}

#[test]
fn only_threads_poll_every_sixteen_ms() {
    assert_eq!(next_control_flow(true, &vec![], true), ControlFlowDecision::WaitUntil(16_000_000));
    assert_eq!(next_control_flow(true, &vec![vec![]], true), ControlFlowDecision::WaitUntil(16_000_000));
    assert_eq!(THREAD_POLL_INTERVAL_NANOS, 16_000_000);
}

#[test]
fn timer_on_every_frame_means_poll() {
    let timers = vec![vec![interval(Some(10))], vec![interval(None), every_frame()]];
    assert_eq!(next_control_flow(true, &timers, false), ControlFlowDecision::Poll);
}

#[test]
fn wait_until_earliest_timer() {
    let timers = vec![vec![interval(Some(2_000_000_000)), interval(Some(700))], vec![interval(Some(900))]];
    assert_eq!(next_control_flow(true, &timers, true), ControlFlowDecision::WaitUntil(700));
}

#[test]
fn overdue_timers_wait_longest() {
    let timers = vec![vec![interval(None)], vec![]];
    assert_eq!(next_control_flow(true, &timers, false), ControlFlowDecision::WaitUntil(1_000_000_000_000));
    let timers = vec![vec![interval(Some(5_000_000_000_000))]];
    assert_eq!(next_control_flow(true, &timers, false), ControlFlowDecision::WaitUntil(MAX_TIMER_WAIT_NANOS));
}

#[test]
fn windows_about_to_close_in_order() {
    assert_eq!(windows_to_close(&vec![false, true, false, true, true]), vec![1, 3, 4]);
    assert_eq!(windows_to_close(&vec![false, false]), Vec::<usize>::new());
    assert_eq!(windows_to_close(&vec![]), Vec::<usize>::new());
}

#[test]
fn close_callback_can_keep_window_open() {
    assert!(window_should_close(None));
    assert!(!window_should_close(Some(UpdateScreen::DoNothing)));
    assert!(window_should_close(Some(UpdateScreen::RegenerateStyledDomForCurrentWindow)));
    assert!(window_should_close(Some(UpdateScreen::RegenerateStyledDomForAllWindows)));
}

#[test]
fn stronger_update_takes_the_farthest_reaching_request() {
    assert_eq!(stronger_update(DoNothing, DoNothing), DoNothing);
    assert_eq!(stronger_update(DoNothing, RegenerateStyledDomForCurrentWindow), RegenerateStyledDomForCurrentWindow);
    assert_eq!(stronger_update(RegenerateStyledDomForCurrentWindow, DoNothing), RegenerateStyledDomForCurrentWindow);
    assert_eq!(stronger_update(RegenerateStyledDomForAllWindows, RegenerateStyledDomForCurrentWindow), RegenerateStyledDomForAllWindows);
    assert_eq!(stronger_update(RegenerateStyledDomForCurrentWindow, RegenerateStyledDomForAllWindows), RegenerateStyledDomForAllWindows);
}
