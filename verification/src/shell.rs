//! What the framework asks of the operating system's windowing layer.
use vstd::prelude::*;
use crate::app::App;

verus! {

/// An error while loading OpenGL or creating an OpenGL context; each
/// variant carries the operating system's error code.
#[derive(Clone, Copy, Debug, PartialEq, Eq)]
pub enum LinuxOpenGlError {
    OpenGL32DllNotFound(u32),
    FailedToGetDC(u32),
    FailedToCreateHiddenHWND(u32),
    FailedToGetPixelFormat(u32),
    NoMatchingPixelFormat(u32),
    OpenGLNotAvailable(u32),
    FailedToStoreContext(u32),
}

/// A monitor that windows can be shown on.
#[derive(Debug)]
pub struct Monitor {
    pub id: usize,
    pub name: Option<String>,
    pub is_primary_monitor: bool,
}

/// The monitors that the X11 shell reports. It does not query the X server
/// for them, and reports none.
pub fn get_monitors<T, W>(app: &App<T, W>) -> (res: Vec<Monitor>)
    ensures
        res@.len() == 0,
{
    Vec::new()
}

} // verus!
