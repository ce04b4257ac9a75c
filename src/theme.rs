use vstd::prelude::*;

verus! {

/// The desktop colour scheme, which decides the tray icon.
#[derive(Debug, Clone, Copy, PartialEq, Eq, Structural)]
pub enum SystemTheme {
    Light,
    Dark,
}

impl SystemTheme {
    /// Maps the desktop's "apps use light theme" flag to a theme. `None` means the
    /// flag could not be read (or the platform has none), which falls back to light.
    pub fn detect(apps_use_light_theme: Option<u32>) -> (r: SystemTheme)
        ensures
            r == (match apps_use_light_theme {
                Some(v) => if v == 0 { SystemTheme::Dark } else { SystemTheme::Light },
                None => SystemTheme::Light,
            }),
    {
        match apps_use_light_theme {
            Some(v) => if v == 0 { SystemTheme::Dark } else { SystemTheme::Light },
            None => SystemTheme::Light,
        }
    }

    /// File name of the tray icon that stays visible on this theme.
    pub fn tray_icon_filename(&self) -> (r: &'static str)
        ensures
            *self == SystemTheme::Light ==> r@ == "tray-icon-black.png"@,
            *self == SystemTheme::Dark ==> r@ == "tray-icon-white.png"@,
    {
        match self {
            SystemTheme::Light => "tray-icon-black.png",
            SystemTheme::Dark => "tray-icon-white.png",
        }
    }
}

} // verus!
