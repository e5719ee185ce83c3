//! Small helpers of the desktop front end: window labels and the theme.
use vstd::prelude::*;
use vstd::string::*;

verus! {

/// The application's windows.
#[derive(Clone, Copy, Debug, PartialEq, Eq, Structural)]
pub enum Window {
    Tray,
    Preferences,
}

impl Window {
    /// The window's label.
    pub fn as_str(&self) -> (r: &'static str)
        ensures
            *self == Window::Tray ==> r@ == "Tray"@,
            *self == Window::Preferences ==> r@ == "Preferences"@,
    {
        match self {
            Window::Tray => "Tray",
            Window::Preferences => "Preferences",
        }
    }
}

/// Switches between the light and the night theme: `"light"` becomes
/// `"night"`, anything else becomes `"light"`.
pub fn toggle_theme(theme: &mut String)
    ensures
        old(theme)@ == "light"@ ==> final(theme)@ == "night"@,
        old(theme)@ != "light"@ ==> final(theme)@ == "light"@,
{
    let light = String::from_str("light");
    if *theme == light {
        *theme = String::from_str("night");
    } else {
        *theme = light;
    }
}

} // verus!
