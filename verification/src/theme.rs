//! Colour themes.
//!
//! Three presets: `dark` (default), `light`, `nocolor`. The third uses only
//! modifiers (bold, dim, reversed) so the table stays usable when piped to a
//! file, or when the terminal has no colour.
//!
//! Selection precedence: `NO_COLOR`, `TERM=dumb` or a non-tty stdout, then the
//! `--theme` flag, then the `MGI_PULSE_THEME` variable, then `dark`. The first
//! tier is an override (<https://no-color.org/>): if the environment asks for
//! no colour, an explicit `--theme=dark` still loses, because the environment
//! knows things the user didn't type.

use vstd::prelude::*;

use crate::engine::record::severity;
use crate::text;

verus! {

/// Terminal colours that the themes use.
#[derive(Debug, Clone, Copy, PartialEq, Eq, Structural)]
pub enum Color {
    Reset,
    Black,
    Red,
    Green,
    Yellow,
    Blue,
    Gray,
    DarkGray,
    White,
}

/// Text attributes.
#[derive(Debug, Clone, Copy, PartialEq, Eq, Structural)]
pub struct Modifiers {
    pub bold: bool,
    pub dim: bool,
    pub underlined: bool,
    pub reversed: bool,
}

/// How a piece of text is drawn. What is not set stays as the terminal has it.
#[derive(Debug, Clone, Copy, PartialEq, Eq, Structural)]
pub struct Style {
    pub fg: Option<Color>,
    pub bg: Option<Color>,
    pub add_modifier: Modifiers,
}

impl Style {
    /// Nothing set.
    pub open spec fn plain() -> Style {
        Style {
            fg: None,
            bg: None,
            add_modifier: Modifiers {
                bold: false,
                dim: false,
                underlined: false,
                reversed: false,
            },
        }
    }

    pub open spec fn with_fg(self, color: Color) -> Style {
        Style { fg: Some(color), ..self }
    }

    pub open spec fn with_bg(self, color: Color) -> Style {
        Style { bg: Some(color), ..self }
    }

    pub open spec fn with_bold(self) -> Style {
        Style { add_modifier: Modifiers { bold: true, ..self.add_modifier }, ..self }
    }

    pub open spec fn with_dim(self) -> Style {
        Style { add_modifier: Modifiers { dim: true, ..self.add_modifier }, ..self }
    }

    pub open spec fn with_underlined(self) -> Style {
        Style { add_modifier: Modifiers { underlined: true, ..self.add_modifier }, ..self }
    }

    pub open spec fn with_reversed(self) -> Style {
        Style { add_modifier: Modifiers { reversed: true, ..self.add_modifier }, ..self }
    }

    /// Nothing set.
    pub fn new() -> (r: Self)
        ensures
            r == Style::plain(),
    {
        Style {
            fg: None,
            bg: None,
            add_modifier: Modifiers {
                bold: false,
                dim: false,
                underlined: false,
                reversed: false,
            },
        }
    }

    pub fn fg(self, color: Color) -> (r: Self)
        ensures
            r == self.with_fg(color),
    {
        Style { fg: Some(color), ..self }
    }

    pub fn bg(self, color: Color) -> (r: Self)
        ensures
            r == self.with_bg(color),
    {
        Style { bg: Some(color), ..self }
    }

    pub fn bold(self) -> (r: Self)
        ensures
            r == self.with_bold(),
    {
        Style { add_modifier: Modifiers { bold: true, ..self.add_modifier }, ..self }
    }

    pub fn dim(self) -> (r: Self)
        ensures
            r == self.with_dim(),
    {
        Style { add_modifier: Modifiers { dim: true, ..self.add_modifier }, ..self }
    }

    pub fn underlined(self) -> (r: Self)
        ensures
            r == self.with_underlined(),
    {
        Style { add_modifier: Modifiers { underlined: true, ..self.add_modifier }, ..self }
    }

    pub fn reversed(self) -> (r: Self)
        ensures
            r == self.with_reversed(),
    {
        Style { add_modifier: Modifiers { reversed: true, ..self.add_modifier }, ..self }
    }
}

#[derive(Debug, Clone, Copy, PartialEq, Eq, Structural)]
pub enum Theme {
    Dark,
    Light,
    NoColor,
}

impl Default for Theme {
    fn default() -> (r: Self)
        ensures
            r == Theme::Dark,
    {
        Theme::Dark
    }
}

/// The theme of a name.
pub open spec fn named(name: Seq<char>) -> Option<Theme> {
    if name == "dark"@ {
        Some(Theme::Dark)
    } else if name == "light"@ {
        Some(Theme::Light)
    } else if name == "nocolor"@ || name == "mono"@ {
        Some(Theme::NoColor)
    } else {
        None
    }
}

/// The theme that the environment variable asks for; dark when it is not set
/// or names none.
pub open spec fn from_variable(value: Option<Seq<char>>) -> Theme {
    match value {
        Some(v) => match named(v) {
            Some(t) => t,
            None => Theme::Dark,
        },
        None => Theme::Dark,
    }
}

/// The environment asks for no colour.
pub open spec fn colourless(
    no_color: Option<Seq<char>>,
    term: Option<Seq<char>>,
    stdout_is_tty: bool,
) -> bool {
    no_color is Some || term == Some("dumb"@) || !stdout_is_tty
}

pub open spec fn opt_text(s: Option<&str>) -> Option<Seq<char>> {
    match s {
        Some(x) => Some(x@),
        None => None,
    }
}

/// Error and fatal.
pub open spec fn is_error(sev: u8) -> bool {
    sev == severity::ERROR || sev == severity::FATAL
}

/// Debug and trace.
pub open spec fn is_debug(sev: u8) -> bool {
    sev == severity::DEBUG || sev == severity::TRACE
}

impl Theme {
    pub fn parse(name: &str) -> (r: Option<Theme>)
        ensures
            r == named(name@),
    {
        proof {
            reveal_strlit("dark");
            reveal_strlit("light");
            reveal_strlit("nocolor");
            reveal_strlit("mono");
        }
        if text::str_eq(name, "dark") {
            Some(Theme::Dark)
        } else if text::str_eq(name, "light") {
            Some(Theme::Light)
        } else if text::str_eq(name, "nocolor") || text::str_eq(name, "mono") {
            Some(Theme::NoColor)
        } else {
            None
        }
    }

    /// The theme of the value of `MGI_PULSE_THEME`, or the default.
    pub fn from_env_or_default(value: Option<&str>) -> (r: Theme)
        ensures
            r == from_variable(opt_text(value)),
    {
        match value {
            Some(v) => match Theme::parse(v) {
                Some(t) => t,
                None => Theme::Dark,
            },
            None => Theme::Dark,
        }
    }

    /// Override that wins over `--theme` and `MGI_PULSE_THEME`: no colour, if
    /// the environment asks for it in any of the conventional ways. Any value
    /// of `NO_COLOR`, the empty one too, disables colour.
    pub fn env_override(
        no_color: Option<&str>,
        term: Option<&str>,
        stdout_is_tty: bool,
    ) -> (r: Option<Theme>)
        ensures
            r == if colourless(opt_text(no_color), opt_text(term), stdout_is_tty) {
                Some(Theme::NoColor)
            } else {
                None::<Theme>
            },
    {
        if no_color.is_some() {
            return Some(Theme::NoColor);
        }
        if let Some(t) = term {
            if text::str_eq(t, "dumb") {
                return Some(Theme::NoColor);
            }
        }
        if !stdout_is_tty {
            return Some(Theme::NoColor);
        }
        None
    }

    /// The style of a severity-coloured cell.
    pub open spec fn severity_cell(self, sev: u8) -> Style {
        match self {
            Theme::Dark => Style::plain().with_fg(
                if is_error(sev) {
                    Color::Red
                } else if sev == severity::WARN {
                    Color::Yellow
                } else if is_debug(sev) {
                    Color::DarkGray
                } else {
                    Color::Reset
                },
            ),
            Theme::Light => if is_error(sev) {
                Style::plain().with_fg(Color::Red).with_bold()
            } else {
                Style::plain().with_fg(
                    if sev == severity::WARN {
                        Color::Yellow
                    } else if is_debug(sev) {
                        Color::Gray
                    } else {
                        Color::Black
                    },
                )
            },
            Theme::NoColor => if is_error(sev) || sev == severity::WARN {
                Style::plain().with_bold()
            } else if is_debug(sev) {
                Style::plain().with_dim()
            } else {
                Style::plain()
            },
        }
    }

    /// Style for a severity-coloured cell (the timestamp column inherits this,
    /// as do level cells).
    pub fn severity_style(self, sev: u8) -> (r: Style)
        ensures
            r == self.severity_cell(sev),
    {
        let error: bool = sev == severity::ERROR || sev == severity::FATAL;
        let debug: bool = sev == severity::DEBUG || sev == severity::TRACE;
        match self {
            Theme::Dark => if error {
                Style::new().fg(Color::Red)
            } else if sev == severity::WARN {
                Style::new().fg(Color::Yellow)
            } else if debug {
                Style::new().fg(Color::DarkGray)
            } else {
                Style::new().fg(Color::Reset)
            },
            Theme::Light => if error {
                Style::new().fg(Color::Red).bold()
            } else if sev == severity::WARN {
                Style::new().fg(Color::Yellow)
            } else if debug {
                Style::new().fg(Color::Gray)
            } else {
                Style::new().fg(Color::Black)
            },
            Theme::NoColor => if error || sev == severity::WARN {
                Style::new().bold()
            } else if debug {
                Style::new().dim()
            } else {
                Style::new()
            },
        }
    }

    pub open spec fn cursor_row(self) -> Style {
        match self {
            Theme::Dark => Style::plain().with_bg(Color::DarkGray).with_bold(),
            Theme::Light => Style::plain().with_bg(Color::Gray).with_fg(Color::Black).with_bold(),
            Theme::NoColor => Style::plain().with_reversed(),
        }
    }

    /// Background style for the row the cursor is on.
    pub fn cursor_row_style(self) -> (r: Style)
        ensures
            r == self.cursor_row(),
    {
        match self {
            Theme::Dark => Style::new().bg(Color::DarkGray).bold(),
            Theme::Light => Style::new().bg(Color::Gray).fg(Color::Black).bold(),
            Theme::NoColor => Style::new().reversed(),
        }
    }

    pub open spec fn active_tab(self) -> Style {
        match self {
            Theme::Dark => Style::plain().with_fg(Color::Yellow).with_bold().with_underlined(),
            Theme::Light => Style::plain().with_fg(Color::Blue).with_bold().with_underlined(),
            Theme::NoColor => Style::plain().with_reversed().with_bold(),
        }
    }

    /// Style for the active tab in the tab bar. Foreground only: a background
    /// fill depends too much on the terminal's palette.
    pub fn active_tab_style(self) -> (r: Style)
        ensures
            r == self.active_tab(),
    {
        match self {
            Theme::Dark => Style::new().fg(Color::Yellow).bold().underlined(),
            Theme::Light => Style::new().fg(Color::Blue).bold().underlined(),
            Theme::NoColor => Style::new().reversed().bold(),
        }
    }

    pub open spec fn inactive_tab(self) -> Style {
        match self {
            Theme::Dark => Style::plain().with_fg(Color::DarkGray),
            Theme::Light => Style::plain().with_fg(Color::Gray),
            Theme::NoColor => Style::plain().with_dim(),
        }
    }

    /// Style for inactive tabs.
    pub fn inactive_tab_style(self) -> (r: Style)
        ensures
            r == self.inactive_tab(),
    {
        match self {
            Theme::Dark => Style::new().fg(Color::DarkGray),
            Theme::Light => Style::new().fg(Color::Gray),
            Theme::NoColor => Style::new().dim(),
        }
    }

    pub open spec fn bright(self) -> Style {
        match self {
            Theme::Dark => Style::plain().with_fg(Color::White).with_bold(),
            Theme::Light => Style::plain().with_fg(Color::Black).with_bold(),
            Theme::NoColor => Style::plain().with_bold(),
        }
    }

    /// Bright style for primary status-bar entry points.
    pub fn hint_bright(self) -> (r: Style)
        ensures
            r == self.bright(),
    {
        match self {
            Theme::Dark => Style::new().fg(Color::White).bold(),
            Theme::Light => Style::new().fg(Color::Black).bold(),
            Theme::NoColor => Style::new().bold(),
        }
    }

    pub open spec fn dimmed(self) -> Style {
        match self {
            Theme::Dark => Style::plain().with_fg(Color::DarkGray),
            Theme::Light => Style::plain().with_fg(Color::Gray),
            Theme::NoColor => Style::plain().with_dim(),
        }
    }

    /// Dim style for surrounding labels.
    pub fn hint_dim(self) -> (r: Style)
        ensures
            r == self.dimmed(),
    {
        match self {
            Theme::Dark => Style::new().fg(Color::DarkGray),
            Theme::Light => Style::new().fg(Color::Gray),
            Theme::NoColor => Style::new().dim(),
        }
    }

    pub open spec fn bar(self, sev: u8) -> Style {
        match self {
            Theme::NoColor => if is_error(sev) {
                Style::plain().with_bold()
            } else {
                Style::plain()
            },
            _ => Style::plain().with_fg(
                if is_error(sev) {
                    Color::Red
                } else if sev == severity::WARN {
                    Color::Yellow
                } else if sev == severity::INFO {
                    Color::Green
                } else if is_debug(sev) {
                    Color::DarkGray
                } else {
                    Color::Gray
                },
            ),
        }
    }

    /// Style for the histogram bars of a severity.
    pub fn histogram_bar(self, sev: u8) -> (r: Style)
        ensures
            r == self.bar(sev),
    {
        let error: bool = sev == severity::ERROR || sev == severity::FATAL;
        match self {
            Theme::NoColor => if error {
                Style::new().bold()
            } else {
                Style::new()
            },
            _ => if error {
                Style::new().fg(Color::Red)
            } else if sev == severity::WARN {
                Style::new().fg(Color::Yellow)
            } else if sev == severity::INFO {
                Style::new().fg(Color::Green)
            } else if sev == severity::DEBUG || sev == severity::TRACE {
                Style::new().fg(Color::DarkGray)
            } else {
                Style::new().fg(Color::Gray)
            },
        }
    }
}

/// What `--theme` asks for: its value, if it was given and names a theme.
pub open spec fn resolved(
    flag: Option<Seq<char>>,
    variable: Option<Seq<char>>,
    no_color: Option<Seq<char>>,
    term: Option<Seq<char>>,
    stdout_is_tty: bool,
) -> Option<Theme> {
    let chosen = match flag {
        Some(name) => named(name),
        None => Some(from_variable(variable)),
    };
    match chosen {
        None => None,
        Some(t) => Some(
            if colourless(no_color, term, stdout_is_tty) {
                Theme::NoColor
            } else {
                t
            },
        ),
    }
}

/// The theme to use. `None` when the flag names no theme: a typo fails before
/// any work is done, whatever the environment says.
pub fn resolve(
    flag: Option<&str>,
    variable: Option<&str>,
    no_color: Option<&str>,
    term: Option<&str>,
    stdout_is_tty: bool,
) -> (r: Option<Theme>)
    ensures
        r == resolved(
            opt_text(flag),
            opt_text(variable),
            opt_text(no_color),
            opt_text(term),
            stdout_is_tty,
        ),
{
    let chosen: Theme = match flag {
        Some(name) => match Theme::parse(name) {
            Some(t) => t,
            None => {
                return None;
            },
        },
        None => Theme::from_env_or_default(variable),
    };
    match Theme::env_override(no_color, term, stdout_is_tty) {
        Some(t) => Some(t),
        None => Some(chosen),
    }
}

/// A theme without colour sets no colour anywhere.
pub proof fn law_nocolor_sets_no_colour(sev: u8)
    ensures
        ({
            let t = Theme::NoColor;
            &&& t.severity_cell(sev).fg is None && t.severity_cell(sev).bg is None
            &&& t.cursor_row().fg is None && t.cursor_row().bg is None
            &&& t.active_tab().fg is None && t.active_tab().bg is None
            &&& t.inactive_tab().fg is None && t.inactive_tab().bg is None
            &&& t.bright().fg is None && t.bright().bg is None
            &&& t.dimmed().fg is None && t.dimmed().bg is None
            &&& t.bar(sev).fg is None && t.bar(sev).bg is None
        }),
{
}

/// When the environment asks for no colour, no flag or variable brings it
/// back.
pub proof fn law_environment_wins(
    flag: Option<Seq<char>>,
    variable: Option<Seq<char>>,
    no_color: Option<Seq<char>>,
    term: Option<Seq<char>>,
    stdout_is_tty: bool,
)
    requires
        colourless(no_color, term, stdout_is_tty),
    ensures
        resolved(flag, variable, no_color, term, stdout_is_tty) matches Some(t) ==> t
            == Theme::NoColor,
{
}

/// In colour, errors are red, warnings yellow, and debug is grey, in the table
/// and in the bars alike, where info is green; errors and fatal errors look the
/// same, and trace looks like debug.
pub proof fn law_severities_have_their_colours(t: Theme, sev: u8)
    ensures
        t.severity_cell(severity::ERROR) == t.severity_cell(severity::FATAL),
        t.severity_cell(severity::DEBUG) == t.severity_cell(severity::TRACE),
        t.bar(severity::ERROR) == t.bar(severity::FATAL),
        t.bar(severity::DEBUG) == t.bar(severity::TRACE),
        t.severity_cell(severity::ERROR) != t.severity_cell(severity::INFO),
        t.severity_cell(severity::WARN) != t.severity_cell(severity::INFO),
        t != Theme::NoColor ==> {
            &&& (sev == severity::ERROR || sev == severity::FATAL) <==> t.severity_cell(sev).fg == Some(
                Color::Red,
            )
            &&& sev == severity::WARN <==> t.severity_cell(sev).fg == Some(Color::Yellow)
            &&& (sev == severity::ERROR || sev == severity::FATAL) <==> t.bar(sev).fg == Some(
                Color::Red,
            )
            &&& sev == severity::WARN <==> t.bar(sev).fg == Some(Color::Yellow)
            &&& sev == severity::INFO <==> t.bar(sev).fg == Some(Color::Green)
        },
        t == Theme::NoColor ==> (sev == severity::ERROR || sev == severity::FATAL || sev
            == severity::WARN) == t.severity_cell(sev).add_modifier.bold,
{
}

/// With colour allowed, the flag decides; without a flag the variable, and
/// without either, or with one that names no theme, it is dark. A flag that
/// names none is refused.
pub proof fn law_flag_goes_before_the_variable(
    flag: Option<Seq<char>>,
    variable: Option<Seq<char>>,
    no_color: Option<Seq<char>>,
    term: Option<Seq<char>>,
)
    requires
        no_color is None,
        term != Some("dumb"@),
    ensures
        flag matches Some(f) ==> resolved(flag, variable, no_color, term, true) == named(f),
        flag is None && variable is Some && named(variable->0) is Some ==> resolved(
            flag,
            variable,
            no_color,
            term,
            true,
        ) == named(variable->0),
        flag is None && (variable is None || named(variable->0) is None) ==> resolved(
            flag,
            variable,
            no_color,
            term,
            true,
        ) == Some(Theme::Dark),
        named("dark"@) == Some(Theme::Dark),
        named("light"@) == Some(Theme::Light),
        named("nocolor"@) == Some(Theme::NoColor),
{
    reveal_strlit("dark");
    reveal_strlit("light");
    reveal_strlit("nocolor");
    reveal_strlit("mono");
    assert("dark"@.len() == 4 && "light"@.len() == 5 && "nocolor"@.len() == 7 && "mono"@.len() == 4);
    assert("dark"@[0] == 'd' && "mono"@[0] == 'm');
}

} // verus!
