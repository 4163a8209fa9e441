use azul::app::{App, AppConfig, AppLogLevel, RendererType};
use azul::shell::{get_monitors, LinuxOpenGlError};

fn config() -> AppConfig {
    AppConfig {
        log_level: AppLogLevel::Error,
        enable_visual_panic_hook: false,
        enable_logging_on_panic: true,
        enable_tab_navigation: true,
        renderer_type: RendererType::Default,
    }
}

#[test]
fn new_app_opens_no_window() {
    let app: App<u32, &str> = App::new(5, config());
    assert_eq!(app.data, 5);
    assert_eq!(app.config, config());
    assert!(app.windows.is_empty());
}

#[test]
fn run_opens_added_windows_then_the_main_window() {
    let mut app: App<String, &str> = App::new("model".to_string(), config());
    app.add_window("extra 1");
    app.add_window("extra 2");
    let (data, cfg, windows) = app.run("main");
    assert_eq!(data, "model");
    assert_eq!(cfg, config());
    assert_eq!(windows, vec!["extra 1", "extra 2", "main"]);
}

#[test]
fn x11_reports_no_monitor() {
    let app: App<(), ()> = App::new((), config());
    assert!(get_monitors(&app).is_empty());
}

#[test]
fn opengl_errors_carry_their_code() {
    let e = LinuxOpenGlError::NoMatchingPixelFormat(7);
    assert_eq!(e, LinuxOpenGlError::NoMatchingPixelFormat(7));
    assert_ne!(e, LinuxOpenGlError::FailedToGetPixelFormat(7));
    let all = [
        LinuxOpenGlError::OpenGL32DllNotFound(1),
        LinuxOpenGlError::FailedToGetDC(2),
        LinuxOpenGlError::FailedToCreateHiddenHWND(3),
        LinuxOpenGlError::FailedToGetPixelFormat(4),
        LinuxOpenGlError::NoMatchingPixelFormat(5),
        LinuxOpenGlError::OpenGLNotAvailable(6),
        LinuxOpenGlError::FailedToStoreContext(7),
    ];
    assert_eq!(all.len(), 7);
}
