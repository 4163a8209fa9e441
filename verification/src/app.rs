//! The application: the user's data, its configuration, and the windows
//! that it opens when it starts.
use vstd::prelude::*;

verus! {

/// How much the application logs.
#[derive(Clone, Copy, Debug, PartialEq, Eq)]
pub enum AppLogLevel {
    Off,
    Error,
    Warn,
    Info,
    Debug,
    Trace,
}

/// Which renderer the windows ask for.
#[derive(Clone, Copy, Debug, PartialEq, Eq)]
pub enum RendererType {
    Default,
    ForceHardware,
    ForceSoftware,
}

/// Configuration of the application.
#[derive(Clone, Copy, Debug, PartialEq, Eq)]
pub struct AppConfig {
    pub log_level: AppLogLevel,
    pub enable_visual_panic_hook: bool,
    pub enable_logging_on_panic: bool,
    pub enable_tab_navigation: bool,
    pub renderer_type: RendererType,
}

/// A graphical application that holds some application state. `T` is the
/// user's data, which all callbacks have access to; `W` describes a window
/// to open.
#[derive(Debug)]
pub struct App<T, W> {
    /// The user's data.
    pub data: T,
    /// Configuration of the application.
    pub config: AppConfig,
    /// The windows to open at start-up, in order. No window is shown until
    /// the application runs.
    pub windows: Vec<W>,
}

impl<T, W> App<T, W> {
    /// Creates an application that opens no window yet.
    pub fn new(initial_data: T, app_config: AppConfig) -> (res: Self)
        ensures
            res.data == initial_data,
            res.config == app_config,
            res.windows@.len() == 0,
    {
        App { data: initial_data, config: app_config, windows: Vec::new() }
    }

    /// Adds a window to open at start-up, after those added before. The
    /// window given to [`App::run`] is the main window; this one is an extra.
    pub fn add_window(&mut self, create_options: W)
        ensures
            final(self).windows@ == old(self).windows@.push(create_options),
            final(self).data == old(self).data,
            final(self).config == old(self).config,
    {
        self.windows.push(create_options);
    }

    /// Starts the application with `root_window` as its main window: the
    /// window joins those to open, and the event loop receives the data,
    /// the configuration and the windows to open, in order.
    pub fn run(self, root_window: W) -> (res: (T, AppConfig, Vec<W>))
        ensures
            res.0 == self.data,
            res.1 == self.config,
            res.2@ == self.windows@.push(root_window),
    {
        let mut app = self;
        app.add_window(root_window);
        let App { data, config, windows } = app;
        (data, config, windows)
    }
}

} // verus!
