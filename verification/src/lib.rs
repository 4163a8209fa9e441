//! Window state, event-loop decisions and styled DOM trees of a desktop GUI
//! framework, with their contracts proved by Verus.

pub mod app;
pub mod event_loop;
pub mod shell;
pub mod styled_dom;
pub mod tasks;
pub mod window_state;
