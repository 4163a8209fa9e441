//! The decisions that the event loop takes between the work that the
//! windowing system, the layout engine and the user's callbacks do: which
//! windows to restyle, re-layout, redraw or close, and how long to sleep.
use vstd::prelude::*;
use crate::window_state::{DomNodeId, FullWindowState, FullWindowStateView};

verus! {

/// What a callback, timer or thread asks the framework to do with the DOM.
#[derive(Clone, Copy, Debug, PartialEq, Eq)]
pub enum UpdateScreen {
    DoNothing,
    RegenerateStyledDomForCurrentWindow,
    RegenerateStyledDomForAllWindows,
}

/// What the layout engine reports after it re-styled and re-laid out a window.
#[derive(Clone, Copy, Debug, PartialEq, Eq)]
pub struct LayoutChanges {
    pub need_regenerate_display_list: bool,
    pub need_redraw: bool,
}

/// What the event loop does next with one window, once its timers or
/// threads have run.
#[derive(Clone, Copy, Debug, PartialEq, Eq)]
pub enum TaskFollowUp {
    /// Re-style and re-lay out the window, then act on the [`LayoutChanges`].
    Relayout,
    /// Rebuild the window's styled DOM and display list, redraw it and
    /// unset its focused node.
    RegenerateWindow,
    /// Nothing now: every window is regenerated once all windows ran.
    RegenerateAllLater,
}

/// The follow-up that a timer or thread result calls for.
pub open spec fn spec_task_follow_up(update: UpdateScreen) -> TaskFollowUp {
    match update {
        UpdateScreen::DoNothing => TaskFollowUp::Relayout,
        UpdateScreen::RegenerateStyledDomForCurrentWindow => TaskFollowUp::RegenerateWindow,
        UpdateScreen::RegenerateStyledDomForAllWindows => TaskFollowUp::RegenerateAllLater,
    }
}

/// Says what to do with a window whose timers or threads returned `update`.
pub fn task_follow_up(update: UpdateScreen) -> (res: TaskFollowUp)
    ensures
        res == spec_task_follow_up(update),
{
    match update {
        UpdateScreen::DoNothing => TaskFollowUp::Relayout,
        UpdateScreen::RegenerateStyledDomForCurrentWindow => TaskFollowUp::RegenerateWindow,
        UpdateScreen::RegenerateStyledDomForAllWindows => TaskFollowUp::RegenerateAllLater,
    }
}

/// Folds the result of one window's timers or threads into the request that
/// holds for all windows: a request to regenerate every window replaces a
/// request to do nothing or to regenerate the current window.
pub fn combine_update_screen(acc: UpdateScreen, update: UpdateScreen) -> (res: UpdateScreen)
    ensures
        res == (if update == UpdateScreen::RegenerateStyledDomForAllWindows && (acc
            == UpdateScreen::DoNothing || acc == UpdateScreen::RegenerateStyledDomForCurrentWindow) {
            update
        } else {
            acc
        }),
{
    match update {
        UpdateScreen::RegenerateStyledDomForAllWindows => match acc {
            UpdateScreen::DoNothing | UpdateScreen::RegenerateStyledDomForCurrentWindow => update,
            UpdateScreen::RegenerateStyledDomForAllWindows => acc,
        },
        _ => acc,
    }
}

/// The request for all windows after the timers and threads of every
/// window ran: every window is regenerated if and only if one of them asked
/// for it.
pub fn update_for_all_windows(results: &Vec<UpdateScreen>) -> (res: UpdateScreen)
    ensures
        res == (if exists|i: int|
            0 <= i < results@.len() && results@[i] == UpdateScreen::RegenerateStyledDomForAllWindows {
            UpdateScreen::RegenerateStyledDomForAllWindows
        } else {
            UpdateScreen::DoNothing
        }),
{
    let mut acc = UpdateScreen::DoNothing;
    let n = results.len();
    let mut i: usize = 0;
    while i < n
        invariant
            n == results@.len(),
            0 <= i <= n,
            acc == (if exists|j: int|
                0 <= j < i && results@[j] == UpdateScreen::RegenerateStyledDomForAllWindows {
                UpdateScreen::RegenerateStyledDomForAllWindows
            } else {
                UpdateScreen::DoNothing
            }),
        decreases n - i,
    {
        let r = results[i];
        acc = combine_update_screen(acc, r);
        proof {
            if r == UpdateScreen::RegenerateStyledDomForAllWindows {
                assert(results@[i as int] == r);
            }
        }
        i = i + 1;
    }
    acc
}

/// How far-reaching a request is: doing nothing, then regenerating the
/// current window, then regenerating every window.
pub open spec fn update_rank(u: UpdateScreen) -> int {
    match u {
        UpdateScreen::DoNothing => 0,
        UpdateScreen::RegenerateStyledDomForCurrentWindow => 1,
        UpdateScreen::RegenerateStyledDomForAllWindows => 2,
    }
}

/// The more far-reaching of the requests of two callbacks that ran on the
/// same window.
pub fn stronger_update(a: UpdateScreen, b: UpdateScreen) -> (res: UpdateScreen)
    ensures
        res == a || res == b,
        update_rank(res) >= update_rank(a),
        update_rank(res) >= update_rank(b),
{
    match (a, b) {
        (UpdateScreen::RegenerateStyledDomForAllWindows, _) => a,
        (_, UpdateScreen::RegenerateStyledDomForAllWindows) => b,
        (UpdateScreen::RegenerateStyledDomForCurrentWindow, _) => a,
        _ => b,
    }
}

/// What a window needs after its event went through the callbacks.
#[derive(Clone, Copy, Debug, PartialEq, Eq)]
pub enum CallbackFollowUp {
    /// Rebuild the styled DOM (the display list follows) and unset the focus.
    RegenerateStyledDom,
    /// Rebuild the styled DOM of every window, rebuild their display lists,
    /// redraw them and unset their focus, as for a timer that asks for it.
    RegenerateAllWindows,
    /// Re-style and re-lay out the window, then act on the [`LayoutChanges`].
    Relayout,
}

/// What the handling of one window event has found, over all the rounds in
/// which the window's callbacks ran.
#[derive(Clone, Copy, Debug, PartialEq, Eq)]
pub struct WindowEventOutcome {
    pub need_regenerate_display_list: bool,
    pub should_scroll_render: bool,
    pub should_callback_render: bool,
}

/// Whether a round of callbacks must run: not when nothing happened (unless
/// the window shows its first frame), and not when the layout callback was
/// exchanged.
pub open spec fn spec_callbacks_needed(events_empty: bool, is_first_frame: bool, layout_callback_changed: bool) -> bool {
    !((events_empty && !is_first_frame) || layout_callback_changed)
}

/// The follow-up that the result of a round of callbacks calls for.
pub open spec fn spec_callback_follow_up(layout_callback_changed: bool, update: UpdateScreen) -> CallbackFollowUp {
    if layout_callback_changed {
        CallbackFollowUp::RegenerateStyledDom
    } else {
        match update {
            UpdateScreen::RegenerateStyledDomForCurrentWindow => CallbackFollowUp::RegenerateStyledDom,
            UpdateScreen::RegenerateStyledDomForAllWindows => CallbackFollowUp::RegenerateAllWindows,
            UpdateScreen::DoNothing => CallbackFollowUp::Relayout,
        }
    }
}

impl WindowEventOutcome {
    /// Nothing found yet.
    pub fn new() -> (res: Self)
        ensures
            !res.need_regenerate_display_list,
            !res.should_scroll_render,
            !res.should_callback_render,
    {
        WindowEventOutcome {
            need_regenerate_display_list: false,
            should_scroll_render: false,
            should_callback_render: false,
        }
    }

    /// Whether a round of callbacks must run for the window's events.
    pub fn callbacks_needed(events_empty: bool, is_first_frame: bool, layout_callback_changed: bool) -> (res: bool)
        ensures
            res == spec_callbacks_needed(events_empty, is_first_frame, layout_callback_changed),
    {
        !((events_empty && !is_first_frame) || layout_callback_changed)
    }

    /// Records a round of callbacks: whether they asked for a redraw,
    /// whether the scroll they caused needs one, and what they asked of the
    /// DOM. Says what to do with the window next.
    pub fn after_callbacks(
        &mut self,
        callbacks_should_render: bool,
        scroll_should_render: bool,
        layout_callback_changed: bool,
        update: UpdateScreen,
    ) -> (res: CallbackFollowUp)
        ensures
            res == spec_callback_follow_up(layout_callback_changed, update),
            final(self).should_callback_render == (old(self).should_callback_render || callbacks_should_render),
            final(self).should_scroll_render == (old(self).should_scroll_render || scroll_should_render),
            final(self).need_regenerate_display_list == (old(self).need_regenerate_display_list
                || res == CallbackFollowUp::RegenerateStyledDom || res == CallbackFollowUp::RegenerateAllWindows),
    {
        if callbacks_should_render {
            self.should_callback_render = true;
        }
        if scroll_should_render {
            self.should_scroll_render = true;
        }
        if layout_callback_changed {
            self.need_regenerate_display_list = true;
            CallbackFollowUp::RegenerateStyledDom
        } else {
            match update {
                UpdateScreen::RegenerateStyledDomForCurrentWindow => {
                    self.need_regenerate_display_list = true;
                    CallbackFollowUp::RegenerateStyledDom
                },
                UpdateScreen::RegenerateStyledDomForAllWindows => {
                    self.need_regenerate_display_list = true;
                    CallbackFollowUp::RegenerateAllWindows
                },
                UpdateScreen::DoNothing => CallbackFollowUp::Relayout,
            }
        }
    }

    /// Records what the layout engine reported after a re-layout.
    pub fn after_relayout(&mut self, changes: LayoutChanges)
        ensures
            final(self).need_regenerate_display_list == (old(self).need_regenerate_display_list
                || changes.need_regenerate_display_list),
            final(self).should_callback_render == (old(self).should_callback_render || changes.need_redraw),
            final(self).should_scroll_render == old(self).should_scroll_render,
    {
        if changes.need_regenerate_display_list {
            self.need_regenerate_display_list = true;
        }
        if changes.need_redraw {
            self.should_callback_render = true;
        }
    }

    /// Whether the window's display list must be rebuilt, and whether the
    /// window must be redrawn, once its event has been handled.
    pub fn finish(&self) -> (res: (bool, bool))
        ensures
            res.0 == self.need_regenerate_display_list,
            res.1 == (self.need_regenerate_display_list || self.should_scroll_render
                || self.should_callback_render),
    {
        let rebuild = self.need_regenerate_display_list;
        let redraw = self.should_scroll_render || self.should_callback_render || rebuild;
        (rebuild, redraw)
    }
}

/// The focused node after a round of callbacks: `Some(new_focus)` sets it,
/// `None` leaves it.
pub open spec fn focused_node_after(current: Option<DomNodeId>, update: Option<Option<DomNodeId>>) -> Option<DomNodeId> {
    match update {
        Some(new_focus) => new_focus,
        None => current,
    }
}

/// Applies the focus change that a round of callbacks asked for.
pub fn apply_focus_update(state: &mut FullWindowState, update: Option<Option<DomNodeId>>)
    ensures
        final(state)@ == (FullWindowStateView {
            focused_node: focused_node_after(old(state)@.focused_node, update),
            ..old(state)@
        }),
{
    if let Some(new_focus) = update {
        state.focused_node = new_focus;
    }
}

/// Law: no round of callbacks runs once the layout callback was exchanged,
/// whatever the events and whatever the frame; otherwise a round runs
/// exactly when some event happened or the window shows its first frame.
pub proof fn law_callbacks_run_only_with_events(events_empty: bool, is_first_frame: bool, layout_callback_changed: bool)
    ensures
        layout_callback_changed ==> !spec_callbacks_needed(events_empty, is_first_frame, layout_callback_changed),
        !layout_callback_changed ==> (spec_callbacks_needed(events_empty, is_first_frame, layout_callback_changed)
            <==> (!events_empty || is_first_frame)),
{
}

/// Law: a focus update `Some(f)` makes `f` the focused node whatever was
/// focused before, none included; no update leaves the focus where it was.
pub proof fn law_focus_update_sets_focus(current: Option<DomNodeId>, f: Option<DomNodeId>)
    ensures
        focused_node_after(current, Some(f)) == f,
        focused_node_after(current, None) == current,
{
}

/// How long the event loop may sleep when only threads are running.
pub const THREAD_POLL_INTERVAL_NANOS: u64 = 16_000_000;

/// The longest that the event loop sleeps while timers are running.
pub const MAX_TIMER_WAIT_NANOS: u64 = 1_000_000_000_000;

/// What the event loop knows of one timer at the start of a frame.
#[derive(Clone, Copy, Debug, PartialEq, Eq)]
pub struct TimerSchedule {
    /// Whether the timer runs at an interval (else it runs on every frame).
    pub has_interval: bool,
    /// Nanoseconds from the start of the frame to the timer's next run;
    /// `None` if that run lies before the start of the frame.
    pub next_run_in: Option<u64>,
}

/// How the event loop waits for the next event.
#[derive(Clone, Copy, Debug, PartialEq, Eq)]
pub enum ControlFlowDecision {
    /// Sleep until the next event.
    Wait,
    /// Sleep until the given number of nanoseconds after the frame started.
    WaitUntil(u64),
    /// Run again at once.
    Poll,
    /// Shut the application down.
    Exit,
}

/// Some timer of some window runs on every frame.
pub open spec fn some_timer_without_interval(timers: Seq<Vec<TimerSchedule>>) -> bool {
    exists|i: int, j: int|
        0 <= i < timers.len() && 0 <= j < timers[i]@.len() && !(#[trigger] timers[i]@[j]).has_interval
}

/// `d` is the earliest next run of any timer, capped at the longest wait.
pub open spec fn is_earliest_next_run(timers: Seq<Vec<TimerSchedule>>, d: u64) -> bool {
    &&& d <= MAX_TIMER_WAIT_NANOS
    &&& forall|i: int, j: int|
        0 <= i < timers.len() && 0 <= j < timers[i]@.len() && (#[trigger] timers[i]@[j]).next_run_in
            is Some ==> d <= timers[i]@[j].next_run_in->0
    &&& (d == MAX_TIMER_WAIT_NANOS || exists|i: int, j: int|
        0 <= i < timers.len() && 0 <= j < timers[i]@.len() && (#[trigger] timers[i]@[j]).next_run_in
            == Some(d))
}

/// The earliest next run of the timers of one window, capped at `bound`.
fn earliest_in_window(timers: &Vec<TimerSchedule>, bound: u64) -> (res: u64)
    ensures
        res <= bound,
        forall|j: int| 0 <= j < timers@.len() && (#[trigger] timers@[j]).next_run_in is Some
            ==> res <= timers@[j].next_run_in->0,
        res == bound || exists|j: int| 0 <= j < timers@.len() && (#[trigger] timers@[j]).next_run_in == Some(res),
{
    let mut best = bound;
    let n = timers.len();
    let mut j: usize = 0;
    while j < n
        invariant
            n == timers@.len(),
            0 <= j <= n,
            best <= bound,
            forall|k: int| 0 <= k < j && (#[trigger] timers@[k]).next_run_in is Some
                ==> best <= timers@[k].next_run_in->0,
            best == bound || exists|k: int| 0 <= k < j && (#[trigger] timers@[k]).next_run_in == Some(best),
        decreases n - j,
    {
        if let Some(d) = timers[j].next_run_in {
            if d < best {
                best = d;
            }
        }
        j = j + 1;
    }
    best
}

/// Whether a window has a timer that runs on every frame.
fn has_timer_without_interval(timers: &Vec<TimerSchedule>) -> (res: bool)
    ensures
        res == exists|j: int| 0 <= j < timers@.len() && !(#[trigger] timers@[j]).has_interval,
{
    let n = timers.len();
    let mut j: usize = 0;
    while j < n
        invariant
            n == timers@.len(),
            0 <= j <= n,
            forall|k: int| 0 <= k < j ==> (#[trigger] timers@[k]).has_interval,
        decreases n - j,
    {
        if !timers[j].has_interval {
            return true;
        }
        j = j + 1;
    }
    false
}

/// No window has a timer.
pub open spec fn no_timer_running(timers: Seq<Vec<TimerSchedule>>) -> bool {
    forall|i: int| 0 <= i < timers.len() ==> (#[trigger] timers[i])@.len() == 0
}

/// Decides how the event loop waits once a frame has been handled, from
/// whether any window is open, the timers of each window, and whether any
/// thread is running: with no window open the application exits; with no
/// timer and no thread it sleeps until the next event; with threads but no
/// timer it wakes up in 16 ms to check on them; with a timer that runs on
/// every frame it runs again at once; else it sleeps until the earliest next
/// run of a timer.
pub fn next_control_flow(has_active_windows: bool, window_timers: &Vec<Vec<TimerSchedule>>, threads_running: bool) -> (res: ControlFlowDecision)
    ensures
        !has_active_windows ==> res == ControlFlowDecision::Exit,
        has_active_windows && no_timer_running(window_timers@) && !threads_running ==> res == ControlFlowDecision::Wait,
        has_active_windows && no_timer_running(window_timers@) && threads_running ==> res
            == ControlFlowDecision::WaitUntil(THREAD_POLL_INTERVAL_NANOS),
        has_active_windows && some_timer_without_interval(window_timers@) ==> res == ControlFlowDecision::Poll,
        has_active_windows && !no_timer_running(window_timers@) && !some_timer_without_interval(window_timers@) ==> (
            res matches ControlFlowDecision::WaitUntil(d) && is_earliest_next_run(window_timers@, d)),
{
    if !has_active_windows {
        return ControlFlowDecision::Exit;
    }
    let n = window_timers.len();
    let mut any_timer = false;
    let mut i: usize = 0;
    while i < n
        invariant
            has_active_windows,
            n == window_timers@.len(),
            0 <= i <= n,
            forall|k: int, j: int|
                0 <= k < i && 0 <= j < window_timers@[k]@.len() ==> (#[trigger] window_timers@[k]@[j]).has_interval,
            any_timer <==> exists|k: int| 0 <= k < i && (#[trigger] window_timers@[k])@.len() > 0,
        decreases n - i,
    {
        if has_timer_without_interval(&window_timers[i]) {
            return ControlFlowDecision::Poll;
        }
        if window_timers[i].len() > 0 {
            any_timer = true;
        }
        proof {
            assert(forall|k: int| 0 <= k < i + 1 ==> #[trigger] window_timers@[k] == window_timers@[k]);
            if window_timers@[i as int]@.len() > 0 {
                assert(exists|k: int| 0 <= k < i + 1 && (#[trigger] window_timers@[k])@.len() > 0);
            }
        }
        i = i + 1;
    }
    if !any_timer {
        proof {
            assert forall|k: int| 0 <= k < n implies (#[trigger] window_timers@[k])@.len() == 0 by {
                if window_timers@[k]@.len() > 0 {
                    assert(exists|kk: int| 0 <= kk < n && (#[trigger] window_timers@[kk])@.len() > 0);
                }
            }
        }
        if !threads_running {
            return ControlFlowDecision::Wait;
        } else {
            return ControlFlowDecision::WaitUntil(THREAD_POLL_INTERVAL_NANOS);
        }
    }
    let mut best = MAX_TIMER_WAIT_NANOS;
    let mut i: usize = 0;
    while i < n
        invariant
            n == window_timers@.len(),
            0 <= i <= n,
            best <= MAX_TIMER_WAIT_NANOS,
            forall|k: int, j: int|
                0 <= k < i && 0 <= j < window_timers@[k]@.len() && (#[trigger] window_timers@[k]@[j]).next_run_in
                    is Some ==> best <= window_timers@[k]@[j].next_run_in->0,
            best == MAX_TIMER_WAIT_NANOS || exists|k: int, j: int|
                0 <= k < i && 0 <= j < window_timers@[k]@.len() && (#[trigger] window_timers@[k]@[j]).next_run_in
                    == Some(best),
        decreases n - i,
    {
        let prev = best;
        best = earliest_in_window(&window_timers[i], best);
        proof {
            if best != prev {
                let j = choose|j: int| 0 <= j < window_timers@[i as int]@.len() && (#[trigger] window_timers@[i as int]@[j]).next_run_in == Some(best);
                assert(window_timers@[i as int]@[j].next_run_in == Some(best));
            }
        }
        i = i + 1;
    }
    ControlFlowDecision::WaitUntil(best)
}

/// The indices of the windows that are about to close, in increasing order.
pub fn windows_to_close(is_about_to_close: &Vec<bool>) -> (res: Vec<usize>)
    ensures
        forall|k: int| 0 <= k < res@.len() ==> res@[k] < is_about_to_close@.len() && is_about_to_close@[res@[k] as int],
        forall|k: int, l: int| 0 <= k < l < res@.len() ==> res@[k] < res@[l],
        forall|i: int| 0 <= i < is_about_to_close@.len() && #[trigger] is_about_to_close@[i] ==> res@.contains(i as usize),
{
    let mut res: Vec<usize> = Vec::new();
    let n = is_about_to_close.len();
    let mut i: usize = 0;
    while i < n
        invariant
            n == is_about_to_close@.len(),
            0 <= i <= n,
            forall|k: int| 0 <= k < res@.len() ==> res@[k] < i && is_about_to_close@[res@[k] as int],
            forall|k: int, l: int| 0 <= k < l < res@.len() ==> res@[k] < res@[l],
            forall|m: int| 0 <= m < i && #[trigger] is_about_to_close@[m] ==> res@.contains(m as usize),
        decreases n - i,
    {
        let ghost before = res@;
        if is_about_to_close[i] {
            res.push(i);
            proof {
                assert(res@[res@.len() - 1] == i);
                assert forall|m: int| 0 <= m < i && #[trigger] is_about_to_close@[m] implies res@.contains(m as usize) by {
                    let k = choose|k: int| 0 <= k < before.len() && before[k] == m as usize;
                    assert(res@[k] == m as usize);
                }
            }
        }
        i = i + 1;
    }
    res
}

/// Whether a window that is about to close does close: it stays open only
/// when its close callback ran and returned [`UpdateScreen::DoNothing`].
pub fn window_should_close(close_callback_result: Option<UpdateScreen>) -> (res: bool)
    ensures
        res == (close_callback_result != Some(UpdateScreen::DoNothing)),
{
    match close_callback_result {
        Some(UpdateScreen::DoNothing) => false,
        _ => true,
    }
}

} // verus!
