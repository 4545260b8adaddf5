//! The colour themes a presentation layer can offer.

use vstd::prelude::*;

verus! {

/// A named colour theme.
#[derive(Debug, Clone, Copy, PartialEq, Eq, Structural)]
pub enum Theme {
    CatppuccinMocha,
    CatppuccinLatte,
    HighContrast,
    Vibrant,
    Nord,
    Dracula,
    GruvboxDark,
    TokyoNight,
    SolarizedDark,
    OneDark,
}

impl Theme {
    /// Every theme, in the order a menu lists them.
    pub fn all() -> (r: &'static [Theme])
        ensures
            r@ == seq![
                Theme::Vibrant, Theme::TokyoNight, Theme::Dracula, Theme::GruvboxDark, Theme::OneDark,
                Theme::Nord, Theme::SolarizedDark, Theme::CatppuccinMocha, Theme::CatppuccinLatte, Theme::HighContrast,
            ],
    {
        let r: &'static [Theme] = &[
            Theme::Vibrant,
            Theme::TokyoNight,
            Theme::Dracula,
            Theme::GruvboxDark,
            Theme::OneDark,
            Theme::Nord,
            Theme::SolarizedDark,
            Theme::CatppuccinMocha,
            Theme::CatppuccinLatte,
            Theme::HighContrast,
        ];
        assert(r@ =~= seq![
            Theme::Vibrant, Theme::TokyoNight, Theme::Dracula, Theme::GruvboxDark, Theme::OneDark,
            Theme::Nord, Theme::SolarizedDark, Theme::CatppuccinMocha, Theme::CatppuccinLatte, Theme::HighContrast,
        ]);
        r
    }

    /// The name shown for the theme.
    pub fn name(&self) -> (r: &'static str)
        ensures
            r@ == self.spec_name(),
    {
        match self {
            Theme::CatppuccinMocha => "🌙 Mocha (Dark)",
            Theme::CatppuccinLatte => "☀️ Latte (Light)",
            Theme::HighContrast => "⚡ High Contrast",
            Theme::Vibrant => "🎨 Vibrant (Default)",
            Theme::Nord => "❄️ Nord (Cool)",
            Theme::Dracula => "🧛 Dracula (Purple)",
            Theme::GruvboxDark => "🍂 Gruvbox (Retro)",
            Theme::TokyoNight => "🌃 Tokyo Night (Modern)",
            Theme::SolarizedDark => "☯️ Solarized Dark (Classic)",
            Theme::OneDark => "🌑 One Dark (Atom)",
        }
    }

    /// The name shown for each theme.
    pub open spec fn spec_name(&self) -> Seq<char> {
        match self {
            Theme::CatppuccinMocha => "🌙 Mocha (Dark)"@,
            Theme::CatppuccinLatte => "☀️ Latte (Light)"@,
            Theme::HighContrast => "⚡ High Contrast"@,
            Theme::Vibrant => "🎨 Vibrant (Default)"@,
            Theme::Nord => "❄️ Nord (Cool)"@,
            Theme::Dracula => "🧛 Dracula (Purple)"@,
            Theme::GruvboxDark => "🍂 Gruvbox (Retro)"@,
            Theme::TokyoNight => "🌃 Tokyo Night (Modern)"@,
            Theme::SolarizedDark => "☯️ Solarized Dark (Classic)"@,
            Theme::OneDark => "🌑 One Dark (Atom)"@,
        }
    }
}

} // verus!
