//! Events that the terminal delivers, and the prompt that takes text.

use vstd::prelude::*;
use vstd::string::*;

verus! {

/// Keys that mean something here. Every other key is `Other`.
#[derive(Debug, Clone, Copy, PartialEq, Eq, Structural)]
pub enum KeyCode {
    Char(char),
    Enter,
    Esc,
    Backspace,
    Tab,
    BackTab,
    Up,
    Down,
    PageUp,
    PageDown,
    Other,
}

/// A key with the modifiers that matter: whether control is held and nothing
/// else, and whether shift is held.
#[derive(Debug, Clone, Copy, PartialEq, Eq, Structural)]
pub struct KeyPress {
    pub code: KeyCode,
    pub control_only: bool,
    pub shift: bool,
}

/// One event of the terminal.
#[derive(Debug, Clone, Copy, PartialEq, Eq, Structural)]
pub enum Event {
    Key(KeyPress),
    ScrollUp,
    ScrollDown,
    /// The left mouse button went down.
    Click { column: u16, row: u16 },
    Other,
}

/// What a key means while no prompt is open.
#[derive(Debug, Clone, Copy, PartialEq, Eq, Structural)]
pub enum Command {
    Nothing,
    Quit,
    OpenTab,
    CloseTab,
    PrevTab,
    NextTab,
    /// Open a prompt.
    Ask(Mode),
    ToggleDetail,
    ToggleStats,
    /// Switch between strict severities and "this and above".
    ToggleMode,
    /// Derive the schema from the filtered view.
    Rescan,
    /// Show the records of a severity tab; 0 shows every severity.
    Severity(u8),
    /// Take the cursor off the timeline, or clear the filters.
    Cancel,
    /// Move the cursor on the timeline by a number of bars.
    Scrub(i8),
    ZoomIn,
    ZoomOut,
    /// Filter by what the cursor on the timeline selects.
    ApplyScrub,
    /// Move the cursor by a number of rows.
    Scroll(i8),
    Start,
    End,
    ToggleMark,
    NextMark,
    WidenColumns,
    NarrowColumns,
}

/// What a character means.
pub open spec fn char_command(c: char, control_only: bool, shift: bool, timed: bool) -> Command {
    if c == 'q' || (c == 'c' && control_only) {
        Command::Quit
    } else if c == 't' && control_only {
        Command::OpenTab
    } else if c == 'w' && control_only {
        Command::CloseTab
    } else if c == '/' {
        Command::Ask(Mode::Search)
    } else if c == ':' || c == ';' {
        Command::Ask(Mode::Dsl)
    } else if c == 'f' {
        Command::Ask(Mode::Filter)
    } else if c == 't' && timed {
        Command::Ask(Mode::JumpTime)
    } else if c == 's' {
        Command::Ask(Mode::Save)
    } else if c == 'd' {
        Command::ToggleDetail
    } else if c == '?' {
        Command::ToggleStats
    } else if c == 'm' {
        Command::ToggleMode
    } else if c == 'R' {
        Command::Rescan
    } else if c == '0' {
        Command::Severity(0)
    } else if c == '1' {
        Command::Severity(1)
    } else if c == '2' {
        Command::Severity(2)
    } else if c == '3' {
        Command::Severity(3)
    } else if c == '4' {
        Command::Severity(4)
    } else if c == 'g' {
        Command::Start
    } else if c == 'G' {
        Command::End
    } else if c == 'b' {
        Command::ToggleMark
    } else if c == 'B' {
        Command::NextMark
    } else if c == ']' {
        Command::WidenColumns
    } else if c == '[' {
        Command::NarrowColumns
    } else if c == '>' {
        Command::Scrub(
            if shift {
                10
            } else {
                1
            },
        )
    } else if c == '<' {
        Command::Scrub(
            if shift {
                (-10) as i8
            } else {
                (-1) as i8
            },
        )
    } else if c == '+' {
        Command::ZoomIn
    } else if c == '-' {
        Command::ZoomOut
    } else {
        Command::Nothing
    }
}

/// What a key means. Jumping to a time needs a source with timestamps.
pub open spec fn key_command(key: KeyPress, timed: bool) -> Command {
    match key.code {
        KeyCode::Char(c) => char_command(c, key.control_only, key.shift, timed),
        KeyCode::Tab => if key.shift {
            Command::PrevTab
        } else {
            Command::NextTab
        },
        KeyCode::BackTab => Command::PrevTab,
        KeyCode::Enter => Command::ApplyScrub,
        KeyCode::Esc => Command::Cancel,
        KeyCode::Up => Command::Scroll((-1) as i8),
        KeyCode::Down => Command::Scroll(1),
        KeyCode::PageUp => Command::Scroll((-20) as i8),
        KeyCode::PageDown => Command::Scroll(20),
        _ => Command::Nothing,
    }
}

/// What a key means.
pub fn binding(key: KeyPress, timed: bool) -> (r: Command)
    ensures
        r == key_command(key, timed),
{
    match key.code {
        KeyCode::Char(c) => {
            if key.control_only {
                if c == 'c' {
                    return Command::Quit;
                }
                if c == 't' {
                    return Command::OpenTab;
                }
                if c == 'w' {
                    return Command::CloseTab;
                }
            }
            match c {
                'q' => Command::Quit,
                '/' => Command::Ask(Mode::Search),
                ':' => Command::Ask(Mode::Dsl),
                ';' => Command::Ask(Mode::Dsl),
                'f' => Command::Ask(Mode::Filter),
                't' => if timed {
                    Command::Ask(Mode::JumpTime)
                } else {
                    Command::Nothing
                },
                's' => Command::Ask(Mode::Save),
                'd' => Command::ToggleDetail,
                '?' => Command::ToggleStats,
                'm' => Command::ToggleMode,
                'R' => Command::Rescan,
                '0' => Command::Severity(0),
                '1' => Command::Severity(1),
                '2' => Command::Severity(2),
                '3' => Command::Severity(3),
                '4' => Command::Severity(4),
                'g' => Command::Start,
                'G' => Command::End,
                'b' => Command::ToggleMark,
                'B' => Command::NextMark,
                ']' => Command::WidenColumns,
                '[' => Command::NarrowColumns,
                '>' => Command::Scrub(
                    if key.shift {
                        10
                    } else {
                        1
                    },
                ),
                '<' => Command::Scrub(
                    if key.shift {
                        -10
                    } else {
                        -1
                    },
                ),
                '+' => Command::ZoomIn,
                '-' => Command::ZoomOut,
                _ => Command::Nothing,
            }
        },
        KeyCode::Tab => if key.shift {
            Command::PrevTab
        } else {
            Command::NextTab
        },
        KeyCode::BackTab => Command::PrevTab,
        KeyCode::Enter => Command::ApplyScrub,
        KeyCode::Esc => Command::Cancel,
        KeyCode::Up => Command::Scroll(-1),
        KeyCode::Down => Command::Scroll(1),
        KeyCode::PageUp => Command::Scroll(-20),
        KeyCode::PageDown => Command::Scroll(20),
        _ => Command::Nothing,
    }
}

/// What the caller has to do after an event.
#[derive(Debug)]
pub enum Effect {
    Nothing,
    /// Leave the application.
    Quit,
    /// Write the filtered view to this path.
    Save(String),
}

/// Input mode for the prompt, with the text typed so far.
#[derive(Debug, Clone)]
pub enum Input {
    Search(String),
    Filter(String),
    /// Jump to the nearest record at or after a timestamp. Takes any prefix of
    /// an RFC 3339 string; shorter ones are padded.
    JumpTime(String),
    /// Query, compiled by `engine::dsl::compile`.
    Dsl(String),
    /// Path of the file that the filtered view is saved to.
    Save(String),
}

/// The kinds of prompt.
#[derive(Debug, Clone, Copy, PartialEq, Eq, Structural)]
pub enum Mode {
    Search,
    Filter,
    JumpTime,
    Dsl,
    Save,
}

/// [`Input`] as plain values.
pub struct InputView {
    pub mode: Mode,
    pub text: Seq<char>,
}

impl View for Input {
    type V = InputView;

    open spec fn view(&self) -> InputView {
        match *self {
            Input::Search(s) => InputView { mode: Mode::Search, text: s@ },
            Input::Filter(s) => InputView { mode: Mode::Filter, text: s@ },
            Input::JumpTime(s) => InputView { mode: Mode::JumpTime, text: s@ },
            Input::Dsl(s) => InputView { mode: Mode::Dsl, text: s@ },
            Input::Save(s) => InputView { mode: Mode::Save, text: s@ },
        }
    }
}

/// The view of an optional prompt.
pub open spec fn opt_input(i: Option<Input>) -> Option<InputView> {
    match i {
        Some(x) => Some(x@),
        None => None,
    }
}

/// What stands before the text of a prompt.
pub open spec fn mode_label(mode: Mode) -> Seq<char> {
    match mode {
        Mode::Search => "/"@,
        Mode::Dsl => ":"@,
        Mode::Filter => "f"@,
        Mode::JumpTime => "t"@,
        Mode::Save => "save:"@,
    }
}

/// A text without its last character.
pub open spec fn shortened(s: Seq<char>) -> Seq<char> {
    if s.len() == 0 {
        s
    } else {
        s.drop_last()
    }
}

impl Input {
    /// An empty prompt.
    pub fn open(mode: Mode) -> (r: Self)
        ensures
            r@ == (InputView { mode, text: Seq::empty() }),
    {
        let empty: String = String::new();
        assert(empty@ =~= Seq::empty());
        match mode {
            Mode::Search => Input::Search(empty),
            Mode::Filter => Input::Filter(empty),
            Mode::JumpTime => Input::JumpTime(empty),
            Mode::Dsl => Input::Dsl(empty),
            Mode::Save => Input::Save(empty),
        }
    }

    /// Take the text out of the prompt.
    pub fn into_parts(self) -> (r: (Mode, String))
        ensures
            r.0 == self@.mode,
            r.1@ == self@.text,
    {
        match self {
            Input::Search(s) => (Mode::Search, s),
            Input::Filter(s) => (Mode::Filter, s),
            Input::JumpTime(s) => (Mode::JumpTime, s),
            Input::Dsl(s) => (Mode::Dsl, s),
            Input::Save(s) => (Mode::Save, s),
        }
    }

    fn from_parts(mode: Mode, s: String) -> (r: Self)
        ensures
            r@ == (InputView { mode, text: s@ }),
    {
        match mode {
            Mode::Search => Input::Search(s),
            Mode::Filter => Input::Filter(s),
            Mode::JumpTime => Input::JumpTime(s),
            Mode::Dsl => Input::Dsl(s),
            Mode::Save => Input::Save(s),
        }
    }

    /// Append a character to the text.
    pub fn typed(self, c: char) -> (r: Self)
        ensures
            r@ == (InputView { text: self@.text.push(c), ..self@ }),
    {
        let (mode, text) = self.into_parts();
        let mut s: String = text;
        s.push(c);
        Input::from_parts(mode, s)
    }

    /// Take the last character off the text.
    pub fn erased(self) -> (r: Self)
        ensures
            r@ == (InputView { text: shortened(self@.text), ..self@ }),
    {
        let (mode, text) = self.into_parts();
        let mut s: String = text;
        let _ = s.pop();
        Input::from_parts(mode, s)
    }

    /// The prompt line.
    pub fn prompt_text(&self) -> (r: String)
        ensures
            r@ == " "@ + mode_label(self@.mode) + " "@ + self@.text + "_"@,
    {
        let (label, text): (&str, &str) = match self {
            Input::Search(s) => ("/", s.as_str()),
            Input::Dsl(s) => (":", s.as_str()),
            Input::Filter(s) => ("f", s.as_str()),
            Input::JumpTime(s) => ("t", s.as_str()),
            Input::Save(s) => ("save:", s.as_str()),
        };
        " ".to_owned().concat(label).concat(" ").concat(text).concat("_")
    }
}

/// A prompt starts with the key that opens it; the one for a file name says
/// that it saves.
pub proof fn law_prompt_starts_with_its_key()
    ensures
        mode_label(Mode::Search) == seq!['/'],
        mode_label(Mode::Dsl) == seq![':'],
        mode_label(Mode::Filter) == seq!['f'],
        mode_label(Mode::JumpTime) == seq!['t'],
        mode_label(Mode::Save) == seq!['s', 'a', 'v', 'e', ':'],
{
    reveal_strlit("/");
    reveal_strlit(":");
    reveal_strlit("f");
    reveal_strlit("t");
    reveal_strlit("save:");
    assert("/"@ =~= seq!['/']);
    assert(":"@ =~= seq![':']);
    assert("f"@ =~= seq!['f']);
    assert("t"@ =~= seq!['t']);
    assert("save:"@ =~= seq!['s', 'a', 'v', 'e', ':']);
}

} // verus!
