# azul (verified core)

The decision-making core of a desktop GUI framework, written in Verus:

- `src/window_state.rs`: the state kept for each window (keyboard, mouse,
  flags, files dragged over it) and how a window event changes it.
- `src/event_loop.rs`: what the event loop decides between the work of the
  windowing system, the layout engine and the user's callbacks: which windows
  to restyle, re-lay out, redraw or close, and how long to sleep.
- `src/tasks.rs`: the timers or threads of each window.
- `src/styled_dom.rs`: DOM trees, style sheets, and the styled DOM: a DOM laid
  out in document order with the declarations that apply to each node, and
  appending one styled DOM under the root of another.
- `src/app.rs`, `src/shell.rs`: the application value and the X11 shell's
  plain parts.

`app/` holds the desktop shell on glutin: event conversion, the
floating-point geometry of windows, and the event loop that carries out the
library's decisions. `tests/` holds the tests.
