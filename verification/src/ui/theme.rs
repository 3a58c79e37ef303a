//! What the screen looks up instead of deciding for itself.
//!
//! Every fixed character, every fixed word and every colour on screen comes
//! from here, in three lists of one kind each. A theme is read down one list
//! — all the marks, then all the words, then all the colours — which is what
//! makes something like [`UiTheme::ascii`] a change to one of them and
//! nothing else.

use crate::runner::RunnerState;
use crate::util::text;
use vstd::prelude::*;
use vstd::string::*;
use vstd::utf8::*;

verus! {

/// How the units pane draws one unit.
#[derive(Clone, Copy, PartialEq, Eq, Debug, Default, Structural)]
pub enum UiThemeMenuLayout {
    /// One line each: the mark, the name, and one column on the right. Short
    /// names wherever the config gave one.
    Compact,
    /// Two lines and a gap: the name on its own, then its state under it.
    #[default]
    Comfortable,
}

/// A colour, as a terminal takes it.
#[derive(Clone, Copy, PartialEq, Eq, Debug, Structural)]
pub enum UiColor {
    DarkGray,
    Gray,
    White,
    Red,
    Green,
    Yellow,
    Magenta,
    Cyan,
    /// A cell of the terminal's own table.
    Indexed(u8),
    /// Red, green and blue.
    Rgb(u8, u8, u8),
}

/// The rules and corners the panes are boxed in.
pub struct UiBorder {
    pub top_left: String,
    pub top_right: String,
    pub bottom_left: String,
    pub bottom_right: String,
    pub vertical_left: String,
    pub vertical_right: String,
    pub horizontal_top: String,
    pub horizontal_bottom: String,
}

/// Every fixed character the screen is drawn with.
pub struct UiThemeSymbols {
    /// The mark on a selected row, in both lists.
    pub cursor: String,
    /// What joins the pieces of the log pane's title.
    pub separator: String,
    /// The corners where the units pane's border runs into the log pane's, so
    /// that the two share one wall instead of standing two next to each other.
    pub join_top: String,
    pub join_bottom: String,
    /// What the "how far below" count is arrowed with while the log is
    /// scrolled back.
    pub behind: String,
    /// What marks text that had to be cut. A name that simply stops looks like
    /// a name spelled that way.
    pub ellipsis: String,
    /// One mark per run state, for the units pane's gutter. Each carries its
    /// meaning in its shape and not only in its colour.
    pub stopped: String,
    pub waiting: String,
    pub starting: String,
    pub running: String,
    pub stopping: String,
    pub done: String,
    pub exit: String,
    pub failed: String,
    pub killed: String,
    /// What names each key in the status bar.
    pub statusbar_move: String,
    pub statusbar_panel: String,
    pub statusbar_actions: String,
    pub statusbar_start: String,
    pub statusbar_stop: String,
    pub statusbar_scroll: String,
    pub statusbar_follow: String,
    pub statusbar_quit: String,
    /// The rules and corners the panes are boxed in.
    pub border: UiBorder,
}

/// Every fixed word the screen is drawn with.
pub struct UiThemeTexts {
    /// One word per run state, for the places wide enough to spell it out.
    pub stopped: String,
    pub waiting: String,
    pub starting: String,
    pub running: String,
    pub stopping: String,
    pub done: String,
    /// A failure that came with a code. A prefix: the number is written after
    /// it.
    pub exit: String,
    /// A failure that came with no code.
    pub failed: String,
    pub killed: String,
    /// The log pane's title when there is no unit to name.
    pub log: String,
    /// A log pane with nothing in it, so an empty one does not read as a pane
    /// that failed to draw.
    pub empty: String,
    /// The menu's way out.
    pub cancel: String,
    /// What each key in the status bar does.
    pub statusbar_move: String,
    pub statusbar_panel: String,
    pub statusbar_actions: String,
    pub statusbar_start: String,
    pub statusbar_stop: String,
    pub statusbar_scroll: String,
    pub statusbar_follow: String,
    pub statusbar_quit: String,
}

/// Every colour the screen is drawn with.
pub struct UiThemeColors {
    /// One colour per run state, shared by that state's mark and its word.
    pub stopped: UiColor,
    pub waiting: UiColor,
    pub starting: UiColor,
    pub running: UiColor,
    pub stopping: UiColor,
    pub done: UiColor,
    pub exit: UiColor,
    pub failed: UiColor,
    pub killed: UiColor,
    /// The cursor mark.
    pub cursor: UiColor,
    /// The keys named in the status bar, apart from what they do.
    pub statusbar_key: UiColor,
}

/// How the screen looks.
pub struct UiTheme {
    /// How the units pane lays a unit out.
    pub menu_layout: UiThemeMenuLayout,
    /// Every fixed character.
    pub symbols: UiThemeSymbols,
    /// Every fixed word.
    pub texts: UiThemeTexts,
    /// Every colour.
    pub colors: UiThemeColors,
    /// Whether a log is drawn in the colours it was written in.
    pub log_colors: bool,
}

impl UiBorder {
    /// Whether nothing outside ASCII is drawn with it.
    pub open spec fn is_ascii(self) -> bool {
        &&& is_ascii_chars(self.top_left@)
        &&& is_ascii_chars(self.top_right@)
        &&& is_ascii_chars(self.bottom_left@)
        &&& is_ascii_chars(self.bottom_right@)
        &&& is_ascii_chars(self.vertical_left@)
        &&& is_ascii_chars(self.vertical_right@)
        &&& is_ascii_chars(self.horizontal_top@)
        &&& is_ascii_chars(self.horizontal_bottom@)
    }

    /// A box drawn with single lines.
    pub fn plain() -> (border: Self)
        ensures
            border.top_left@ == "┌"@,
            border.top_right@ == "┐"@,
            border.bottom_left@ == "└"@,
            border.bottom_right@ == "┘"@,
            border.vertical_left@ == "│"@,
            border.vertical_right@ == "│"@,
            border.horizontal_top@ == "─"@,
            border.horizontal_bottom@ == "─"@,
    {
        UiBorder {
            top_left: text::owned("┌"),
            top_right: text::owned("┐"),
            bottom_left: text::owned("└"),
            bottom_right: text::owned("┘"),
            vertical_left: text::owned("│"),
            vertical_right: text::owned("│"),
            horizontal_top: text::owned("─"),
            horizontal_bottom: text::owned("─"),
        }
    }

    /// A box drawn with the three characters a teletype had: `-`, `|` and
    /// `+`.
    pub fn ascii() -> (border: Self)
        ensures
            border.top_left@ == "+"@,
            border.top_right@ == "+"@,
            border.bottom_left@ == "+"@,
            border.bottom_right@ == "+"@,
            border.vertical_left@ == "|"@,
            border.vertical_right@ == "|"@,
            border.horizontal_top@ == "-"@,
            border.horizontal_bottom@ == "-"@,
            border.is_ascii(),
    {
        proof {
            reveal_strlit("+");
            reveal_strlit("|");
            reveal_strlit("-");
        }
        UiBorder {
            top_left: text::owned("+"),
            top_right: text::owned("+"),
            bottom_left: text::owned("+"),
            bottom_right: text::owned("+"),
            vertical_left: text::owned("|"),
            vertical_right: text::owned("|"),
            horizontal_top: text::owned("-"),
            horizontal_bottom: text::owned("-"),
        }
    }
}

impl UiThemeSymbols {
    /// Whether nothing outside ASCII is drawn with them.
    pub open spec fn is_ascii(self) -> bool {
        &&& self.border.is_ascii()
        &&& is_ascii_chars(self.cursor@)
        &&& is_ascii_chars(self.separator@)
        &&& is_ascii_chars(self.join_top@)
        &&& is_ascii_chars(self.join_bottom@)
        &&& is_ascii_chars(self.behind@)
        &&& is_ascii_chars(self.ellipsis@)
        &&& is_ascii_chars(self.stopped@)
        &&& is_ascii_chars(self.waiting@)
        &&& is_ascii_chars(self.starting@)
        &&& is_ascii_chars(self.running@)
        &&& is_ascii_chars(self.stopping@)
        &&& is_ascii_chars(self.done@)
        &&& is_ascii_chars(self.exit@)
        &&& is_ascii_chars(self.failed@)
        &&& is_ascii_chars(self.killed@)
        &&& is_ascii_chars(self.statusbar_move@)
        &&& is_ascii_chars(self.statusbar_panel@)
        &&& is_ascii_chars(self.statusbar_actions@)
        &&& is_ascii_chars(self.statusbar_start@)
        &&& is_ascii_chars(self.statusbar_stop@)
        &&& is_ascii_chars(self.statusbar_scroll@)
        &&& is_ascii_chars(self.statusbar_follow@)
        &&& is_ascii_chars(self.statusbar_quit@)
    }

    /// The mark for `state`.
    pub open spec fn mark(self, state: RunnerState) -> Seq<char> {
        match state {
            RunnerState::Stopped => self.stopped@,
            RunnerState::Waiting => self.waiting@,
            RunnerState::Started => self.starting@,
            RunnerState::Running => self.running@,
            RunnerState::Killing => self.stopping@,
            RunnerState::ExitSuccess => self.done@,
            RunnerState::ExitError(Some(_)) => self.exit@,
            RunnerState::ExitError(None) => self.failed@,
            RunnerState::Killed(_) => self.killed@,
        }
    }

    /// The mark for `state`.
    pub fn status(&self, state: RunnerState) -> (mark: &String)
        ensures
            mark@ == self.mark(state),
    {
        match state {
            RunnerState::Stopped => &self.stopped,
            RunnerState::Waiting => &self.waiting,
            RunnerState::Started => &self.starting,
            RunnerState::Running => &self.running,
            RunnerState::Killing => &self.stopping,
            RunnerState::ExitSuccess => &self.done,
            RunnerState::ExitError(Some(_)) => &self.exit,
            RunnerState::ExitError(None) => &self.failed,
            RunnerState::Killed(_) => &self.killed,
        }
    }

    /// The same marks with nothing outside ASCII, for a terminal whose font
    /// or encoding will not carry the rest.
    ///
    /// Shapes stay as far apart as seven printable characters allow, since
    /// shape is what the gutter is read by: coming up and going down are `^`
    /// and `v`, a failure is `!` and a kill is `x`.
    pub fn ascii() -> (symbols: Self)
        ensures
            symbols.cursor@ == ">"@,
            symbols.separator@ == " - "@,
            symbols.join_top@ == "+"@,
            symbols.join_bottom@ == "+"@,
            symbols.behind@ == " v "@,
            symbols.ellipsis@ == "..."@,
            symbols.stopped@ == "-"@,
            symbols.waiting@ == "."@,
            symbols.starting@ == "^"@,
            symbols.running@ == "*"@,
            symbols.stopping@ == "v"@,
            symbols.done@ == "+"@,
            symbols.exit@ == "!"@,
            symbols.failed@ == "!"@,
            symbols.killed@ == "x"@,
            symbols.statusbar_move@ == "up/dn"@,
            symbols.statusbar_panel@ == "tab"@,
            symbols.statusbar_actions@ == "enter"@,
            symbols.statusbar_start@ == "r"@,
            symbols.statusbar_stop@ == "bksp"@,
            symbols.statusbar_scroll@ == "pgup/dn"@,
            symbols.statusbar_follow@ == "end"@,
            symbols.statusbar_quit@ == "q"@,
            symbols.border.top_left@ == "+"@,
            symbols.border.top_right@ == "+"@,
            symbols.border.bottom_left@ == "+"@,
            symbols.border.bottom_right@ == "+"@,
            symbols.border.vertical_left@ == "|"@,
            symbols.border.vertical_right@ == "|"@,
            symbols.border.horizontal_top@ == "-"@,
            symbols.border.horizontal_bottom@ == "-"@,
            symbols.is_ascii(),
    {
        proof {
            reveal_strlit(">");
            reveal_strlit(" - ");
            reveal_strlit("+");
            reveal_strlit(" v ");
            reveal_strlit("...");
            reveal_strlit("-");
            reveal_strlit(".");
            reveal_strlit("^");
            reveal_strlit("*");
            reveal_strlit("v");
            reveal_strlit("!");
            reveal_strlit("x");
            reveal_strlit("up/dn");
            reveal_strlit("tab");
            reveal_strlit("enter");
            reveal_strlit("r");
            reveal_strlit("bksp");
            reveal_strlit("pgup/dn");
            reveal_strlit("end");
            reveal_strlit("q");
        }
        UiThemeSymbols {
            cursor: text::owned(">"),
            separator: text::owned(" - "),
            join_top: text::owned("+"),
            join_bottom: text::owned("+"),
            behind: text::owned(" v "),
            ellipsis: text::owned("..."),
            stopped: text::owned("-"),
            waiting: text::owned("."),
            starting: text::owned("^"),
            running: text::owned("*"),
            stopping: text::owned("v"),
            done: text::owned("+"),
            exit: text::owned("!"),
            failed: text::owned("!"),
            killed: text::owned("x"),
            statusbar_move: text::owned("up/dn"),
            statusbar_panel: text::owned("tab"),
            statusbar_actions: text::owned("enter"),
            statusbar_start: text::owned("r"),
            statusbar_stop: text::owned("bksp"),
            statusbar_scroll: text::owned("pgup/dn"),
            statusbar_follow: text::owned("end"),
            statusbar_quit: text::owned("q"),
            border: UiBorder::ascii(),
        }
    }
}

impl Default for UiThemeSymbols {
    fn default() -> (symbols: Self)
        ensures
            symbols.cursor@ == ">"@,
            symbols.separator@ == " · "@,
            symbols.join_top@ == "┬"@,
            symbols.join_bottom@ == "┴"@,
            symbols.behind@ == " ↓ "@,
            symbols.ellipsis@ == "…"@,
            symbols.stopped@ == "○"@,
            symbols.waiting@ == "◌"@,
            symbols.starting@ == "◐"@,
            symbols.running@ == "●"@,
            symbols.stopping@ == "◑"@,
            symbols.done@ == "✓"@,
            symbols.exit@ == "✗"@,
            symbols.failed@ == "✗"@,
            symbols.killed@ == "✗"@,
            symbols.statusbar_move@ == "↑↓"@,
            symbols.statusbar_panel@ == "⇥"@,
            symbols.statusbar_actions@ == "⏎"@,
            symbols.statusbar_start@ == "r"@,
            symbols.statusbar_stop@ == "⌫"@,
            symbols.statusbar_scroll@ == "pgup/dn"@,
            symbols.statusbar_follow@ == "end"@,
            symbols.statusbar_quit@ == "q"@,
            symbols.border.top_left@ == "┌"@,
            symbols.border.top_right@ == "┐"@,
            symbols.border.bottom_left@ == "└"@,
            symbols.border.bottom_right@ == "┘"@,
            symbols.border.vertical_left@ == "│"@,
            symbols.border.vertical_right@ == "│"@,
            symbols.border.horizontal_top@ == "─"@,
            symbols.border.horizontal_bottom@ == "─"@,
    {
        UiThemeSymbols {
            cursor: text::owned(">"),
            separator: text::owned(" · "),
            join_top: text::owned("┬"),
            join_bottom: text::owned("┴"),
            behind: text::owned(" ↓ "),
            ellipsis: text::owned("…"),
            stopped: text::owned("○"),
            waiting: text::owned("◌"),
            starting: text::owned("◐"),
            running: text::owned("●"),
            stopping: text::owned("◑"),
            done: text::owned("✓"),
            exit: text::owned("✗"),
            failed: text::owned("✗"),
            killed: text::owned("✗"),
            statusbar_move: text::owned("↑↓"),
            statusbar_panel: text::owned("⇥"),
            statusbar_actions: text::owned("⏎"),
            statusbar_start: text::owned("r"),
            statusbar_stop: text::owned("⌫"),
            statusbar_scroll: text::owned("pgup/dn"),
            statusbar_follow: text::owned("end"),
            statusbar_quit: text::owned("q"),
            border: UiBorder::plain(),
        }
    }
}

impl UiThemeTexts {
    /// The word for `state`.
    pub open spec fn word(self, state: RunnerState) -> Seq<char> {
        match state {
            RunnerState::Stopped => self.stopped@,
            RunnerState::Waiting => self.waiting@,
            RunnerState::Started => self.starting@,
            RunnerState::Running => self.running@,
            RunnerState::Killing => self.stopping@,
            RunnerState::ExitSuccess => self.done@,
            RunnerState::ExitError(Some(_)) => self.exit@,
            RunnerState::ExitError(None) => self.failed@,
            RunnerState::Killed(_) => self.killed@,
        }
    }

    /// The word for `state`.
    pub fn status(&self, state: RunnerState) -> (word: &String)
        ensures
            word@ == self.word(state),
    {
        match state {
            RunnerState::Stopped => &self.stopped,
            RunnerState::Waiting => &self.waiting,
            RunnerState::Started => &self.starting,
            RunnerState::Running => &self.running,
            RunnerState::Killing => &self.stopping,
            RunnerState::ExitSuccess => &self.done,
            RunnerState::ExitError(Some(_)) => &self.exit,
            RunnerState::ExitError(None) => &self.failed,
            RunnerState::Killed(_) => &self.killed,
        }
    }
}

impl Default for UiThemeTexts {
    fn default() -> (texts: Self)
        ensures
            texts.stopped@ == "stopped"@,
            texts.waiting@ == "waiting"@,
            texts.starting@ == "starting"@,
            texts.running@ == "running"@,
            texts.stopping@ == "stopping"@,
            texts.done@ == "done"@,
            texts.exit@ == "exit "@,
            texts.failed@ == "failed"@,
            texts.killed@ == "killed"@,
            texts.log@ == "log"@,
            texts.empty@ == "no output yet"@,
            texts.cancel@ == "cancel"@,
            texts.statusbar_move@ == "move"@,
            texts.statusbar_panel@ == "panel"@,
            texts.statusbar_actions@ == "actions"@,
            texts.statusbar_start@ == "(re)start"@,
            texts.statusbar_stop@ == "stop"@,
            texts.statusbar_scroll@ == "scroll"@,
            texts.statusbar_follow@ == "follow"@,
            texts.statusbar_quit@ == "quit"@,
    {
        UiThemeTexts {
            stopped: text::owned("stopped"),
            waiting: text::owned("waiting"),
            starting: text::owned("starting"),
            running: text::owned("running"),
            stopping: text::owned("stopping"),
            done: text::owned("done"),
            exit: text::owned("exit "),
            failed: text::owned("failed"),
            killed: text::owned("killed"),
            log: text::owned("log"),
            empty: text::owned("no output yet"),
            cancel: text::owned("cancel"),
            statusbar_move: text::owned("move"),
            statusbar_panel: text::owned("panel"),
            statusbar_actions: text::owned("actions"),
            statusbar_start: text::owned("(re)start"),
            statusbar_stop: text::owned("stop"),
            statusbar_scroll: text::owned("scroll"),
            statusbar_follow: text::owned("follow"),
            statusbar_quit: text::owned("quit"),
        }
    }
}

impl UiThemeColors {
    /// The colours a screen is drawn with unless it is told otherwise.
    pub open spec fn spec_default() -> UiThemeColors {
        UiThemeColors {
            stopped: UiColor::DarkGray,
            waiting: UiColor::Gray,
            starting: UiColor::Yellow,
            running: UiColor::Green,
            stopping: UiColor::Yellow,
            done: UiColor::Cyan,
            exit: UiColor::Red,
            failed: UiColor::Red,
            killed: UiColor::Magenta,
            cursor: UiColor::White,
            statusbar_key: UiColor::Cyan,
        }
    }

    /// The colour for `state`.
    pub open spec fn color(self, state: RunnerState) -> UiColor {
        match state {
            RunnerState::Stopped => self.stopped,
            RunnerState::Waiting => self.waiting,
            RunnerState::Started => self.starting,
            RunnerState::Running => self.running,
            RunnerState::Killing => self.stopping,
            RunnerState::ExitSuccess => self.done,
            RunnerState::ExitError(Some(_)) => self.exit,
            RunnerState::ExitError(None) => self.failed,
            RunnerState::Killed(_) => self.killed,
        }
    }

    /// The colour for `state`.
    pub fn status(&self, state: RunnerState) -> (color: UiColor)
        ensures
            color == self.color(state),
    {
        match state {
            RunnerState::Stopped => self.stopped,
            RunnerState::Waiting => self.waiting,
            RunnerState::Started => self.starting,
            RunnerState::Running => self.running,
            RunnerState::Killing => self.stopping,
            RunnerState::ExitSuccess => self.done,
            RunnerState::ExitError(Some(_)) => self.exit,
            RunnerState::ExitError(None) => self.failed,
            RunnerState::Killed(_) => self.killed,
        }
    }
}

impl Default for UiThemeColors {
    fn default() -> (colors: Self)
        ensures
            colors == UiThemeColors::spec_default(),
    {
        UiThemeColors {
            stopped: UiColor::DarkGray,
            waiting: UiColor::Gray,
            starting: UiColor::Yellow,
            running: UiColor::Green,
            stopping: UiColor::Yellow,
            done: UiColor::Cyan,
            exit: UiColor::Red,
            failed: UiColor::Red,
            killed: UiColor::Magenta,
            cursor: UiColor::White,
            statusbar_key: UiColor::Cyan,
        }
    }
}

impl Default for UiTheme {
    fn default() -> (theme: Self)
        ensures
            theme.menu_layout == UiThemeMenuLayout::Comfortable,
            theme.symbols.cursor@ == ">"@,
            theme.symbols.separator@ == " · "@,
            theme.symbols.join_top@ == "┬"@,
            theme.symbols.join_bottom@ == "┴"@,
            theme.symbols.behind@ == " ↓ "@,
            theme.symbols.ellipsis@ == "…"@,
            theme.symbols.stopped@ == "○"@,
            theme.symbols.waiting@ == "◌"@,
            theme.symbols.starting@ == "◐"@,
            theme.symbols.running@ == "●"@,
            theme.symbols.stopping@ == "◑"@,
            theme.symbols.done@ == "✓"@,
            theme.symbols.exit@ == "✗"@,
            theme.symbols.failed@ == "✗"@,
            theme.symbols.killed@ == "✗"@,
            theme.symbols.statusbar_move@ == "↑↓"@,
            theme.symbols.statusbar_panel@ == "⇥"@,
            theme.symbols.statusbar_actions@ == "⏎"@,
            theme.symbols.statusbar_start@ == "r"@,
            theme.symbols.statusbar_stop@ == "⌫"@,
            theme.symbols.statusbar_scroll@ == "pgup/dn"@,
            theme.symbols.statusbar_follow@ == "end"@,
            theme.symbols.statusbar_quit@ == "q"@,
            theme.texts.stopped@ == "stopped"@,
            theme.texts.waiting@ == "waiting"@,
            theme.texts.starting@ == "starting"@,
            theme.texts.running@ == "running"@,
            theme.texts.stopping@ == "stopping"@,
            theme.texts.done@ == "done"@,
            theme.texts.exit@ == "exit "@,
            theme.texts.failed@ == "failed"@,
            theme.texts.killed@ == "killed"@,
            theme.texts.log@ == "log"@,
            theme.texts.empty@ == "no output yet"@,
            theme.texts.cancel@ == "cancel"@,
            theme.texts.statusbar_move@ == "move"@,
            theme.texts.statusbar_panel@ == "panel"@,
            theme.texts.statusbar_actions@ == "actions"@,
            theme.texts.statusbar_start@ == "(re)start"@,
            theme.texts.statusbar_stop@ == "stop"@,
            theme.texts.statusbar_scroll@ == "scroll"@,
            theme.texts.statusbar_follow@ == "follow"@,
            theme.texts.statusbar_quit@ == "quit"@,
            theme.symbols.border.top_left@ == "┌"@,
            theme.symbols.border.top_right@ == "┐"@,
            theme.symbols.border.bottom_left@ == "└"@,
            theme.symbols.border.bottom_right@ == "┘"@,
            theme.symbols.border.vertical_left@ == "│"@,
            theme.symbols.border.vertical_right@ == "│"@,
            theme.symbols.border.horizontal_top@ == "─"@,
            theme.symbols.border.horizontal_bottom@ == "─"@,
            theme.colors == UiThemeColors::spec_default(),
            theme.log_colors,
    {
        UiTheme {
            menu_layout: UiThemeMenuLayout::Comfortable,
            symbols: UiThemeSymbols::default(),
            texts: UiThemeTexts::default(),
            colors: UiThemeColors::default(),
            log_colors: true,
        }
    }
}

impl UiTheme {
    /// The default, with nothing outside ASCII drawn.
    ///
    /// Only the marks change: the words were ASCII already, and the colours
    /// are the terminal's own however old it is.
    pub fn ascii() -> (theme: Self)
        ensures
            theme.menu_layout == UiThemeMenuLayout::Comfortable,
            theme.symbols.cursor@ == ">"@,
            theme.symbols.separator@ == " - "@,
            theme.symbols.join_top@ == "+"@,
            theme.symbols.join_bottom@ == "+"@,
            theme.symbols.behind@ == " v "@,
            theme.symbols.ellipsis@ == "..."@,
            theme.symbols.stopped@ == "-"@,
            theme.symbols.waiting@ == "."@,
            theme.symbols.starting@ == "^"@,
            theme.symbols.running@ == "*"@,
            theme.symbols.stopping@ == "v"@,
            theme.symbols.done@ == "+"@,
            theme.symbols.exit@ == "!"@,
            theme.symbols.failed@ == "!"@,
            theme.symbols.killed@ == "x"@,
            theme.symbols.statusbar_move@ == "up/dn"@,
            theme.symbols.statusbar_panel@ == "tab"@,
            theme.symbols.statusbar_actions@ == "enter"@,
            theme.symbols.statusbar_start@ == "r"@,
            theme.symbols.statusbar_stop@ == "bksp"@,
            theme.symbols.statusbar_scroll@ == "pgup/dn"@,
            theme.symbols.statusbar_follow@ == "end"@,
            theme.symbols.statusbar_quit@ == "q"@,
            theme.texts.stopped@ == "stopped"@,
            theme.texts.waiting@ == "waiting"@,
            theme.texts.starting@ == "starting"@,
            theme.texts.running@ == "running"@,
            theme.texts.stopping@ == "stopping"@,
            theme.texts.done@ == "done"@,
            theme.texts.exit@ == "exit "@,
            theme.texts.failed@ == "failed"@,
            theme.texts.killed@ == "killed"@,
            theme.texts.log@ == "log"@,
            theme.texts.empty@ == "no output yet"@,
            theme.texts.cancel@ == "cancel"@,
            theme.texts.statusbar_move@ == "move"@,
            theme.texts.statusbar_panel@ == "panel"@,
            theme.texts.statusbar_actions@ == "actions"@,
            theme.texts.statusbar_start@ == "(re)start"@,
            theme.texts.statusbar_stop@ == "stop"@,
            theme.texts.statusbar_scroll@ == "scroll"@,
            theme.texts.statusbar_follow@ == "follow"@,
            theme.texts.statusbar_quit@ == "quit"@,
            theme.symbols.is_ascii(),
            theme.symbols.border.top_left@ == "+"@,
            theme.symbols.border.top_right@ == "+"@,
            theme.symbols.border.bottom_left@ == "+"@,
            theme.symbols.border.bottom_right@ == "+"@,
            theme.symbols.border.vertical_left@ == "|"@,
            theme.symbols.border.vertical_right@ == "|"@,
            theme.symbols.border.horizontal_top@ == "-"@,
            theme.symbols.border.horizontal_bottom@ == "-"@,
            theme.colors == UiThemeColors::spec_default(),
            theme.log_colors,
    {
        UiTheme { symbols: UiThemeSymbols::ascii(), ..UiTheme::default() }
    }
}

/// A mark, a word and a colour go together: a unit is shown as what it is
/// doing, one that failed by whether it said a code, and every kill alike.
pub proof fn each_state_has_its_own_look(theme: UiTheme, state: RunnerState)
    ensures
        ({
            let looks = (
                theme.symbols.mark(state),
                theme.texts.word(state),
                theme.colors.color(state),
            );
            let (symbols, texts, colors) = (theme.symbols, theme.texts, theme.colors);
            &&& state is Stopped ==> looks == (symbols.stopped@, texts.stopped@, colors.stopped)
            &&& state is Waiting ==> looks == (symbols.waiting@, texts.waiting@, colors.waiting)
            &&& state is Started ==> looks == (symbols.starting@, texts.starting@, colors.starting)
            &&& state is Running ==> looks == (symbols.running@, texts.running@, colors.running)
            &&& state is Killing ==> looks == (symbols.stopping@, texts.stopping@, colors.stopping)
            &&& state is ExitSuccess ==> looks == (symbols.done@, texts.done@, colors.done)
            &&& state is Killed ==> looks == (symbols.killed@, texts.killed@, colors.killed)
            &&& state is ExitError && state->ExitError_0 is Some ==> looks == (
                symbols.exit@,
                texts.exit@,
                colors.exit,
            )
            &&& state is ExitError && state->ExitError_0 is None ==> looks == (
                symbols.failed@,
                texts.failed@,
                colors.failed,
            )
        }),
{
}

} // verus!
