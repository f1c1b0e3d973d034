//! What each key does: a key press in a mode names a command, and running the
//! command changes the browser state.

use vstd::prelude::*;

use crate::app::{min_nat, saturating_offset, App, Mode};
use crate::input::{decimal, decimal_chars, pop_digit, push_digit, spec_pop_digit, spec_push_digit};
use crate::strings::{char_is_control, is_control_char, pop_char, push_char};

verus! {

/// A key, as far as the browser tells keys apart.
#[derive(Clone, Copy, PartialEq, Eq, Structural, Debug)]
pub enum Key {
    Char(char),
    Up,
    Down,
    Enter,
    Esc,
    Backspace,
    Delete,
    Other,
}

/// A key pressed, with whether Ctrl was held.
#[derive(Clone, Copy, PartialEq, Eq, Structural, Debug)]
pub struct KeyPress {
    pub key: Key,
    pub ctrl: bool,
}

/// Which length bound an edit applies to.
#[derive(Clone, Copy, PartialEq, Eq, Structural, Debug)]
pub enum Bound {
    Min,
    Max,
}

#[derive(Clone, Copy, PartialEq, Eq, Structural, Debug)]
pub enum Command {
    Quit,
    Ignore,
    MoveBy(isize),
    GoTo(usize),
    ToggleSelection,
    BeginRange,
    FinishRange,
    CancelRange,
    /// Ends a range selection, then selects or unselects the whole view.
    FinishRangeSelectAll,
    ToggleSelectAll,
    ToggleOrder,
    /// Deletes the selection, or only the entry under the cursor.
    Delete(bool),
    /// Clears the text filter and starts typing a new one.
    StartTextFilter,
    SetMode(Mode),
    PopText,
    PushText(char),
    PopLength(Bound),
    PushLength(Bound, char),
}

/// What the front end has to do after a key.
#[derive(Clone, Copy, PartialEq, Eq, Structural, Debug)]
pub enum Outcome {
    Continue,
    Quit,
    /// A delete removed this many entries; the history file has to be
    /// rewritten.
    Removed(usize),
}

pub open spec fn is_char(press: KeyPress, c: char) -> bool {
    press.key == Key::Char(c)
}

/// The command a key names in normal mode.
pub open spec fn normal_command(press: KeyPress) -> Command {
    if is_char(press, 'q') || press.key == Key::Esc {
        Command::Quit
    } else if is_char(press, 'j') || press.key == Key::Down {
        Command::MoveBy(1isize)
    } else if is_char(press, 'k') || press.key == Key::Up {
        Command::MoveBy(-1isize)
    } else if is_char(press, 'g') {
        Command::GoTo(0)
    } else if is_char(press, 'G') {
        Command::GoTo(usize::MAX)
    } else if is_char(press, ' ') {
        Command::ToggleSelection
    } else if is_char(press, 'v') {
        Command::BeginRange
    } else if is_char(press, 'a') {
        Command::ToggleSelectAll
    } else if is_char(press, 'r') {
        Command::ToggleOrder
    } else if is_char(press, 'd') && press.ctrl {
        Command::Delete(true)
    } else if is_char(press, 'd') || press.key == Key::Delete {
        Command::Delete(false)
    } else if is_char(press, '/') {
        Command::StartTextFilter
    } else if is_char(press, 'm') {
        Command::SetMode(Mode::FilterMinLen)
    } else if is_char(press, 'M') {
        Command::SetMode(Mode::FilterMaxLen)
    } else {
        Command::Ignore
    }
}

/// The command a key names while a range selection is extended: navigation
/// extends the range, so the only new keys are the ways to end it.
pub open spec fn range_command(press: KeyPress) -> Command {
    if is_char(press, 'j') || press.key == Key::Down {
        Command::MoveBy(1isize)
    } else if is_char(press, 'k') || press.key == Key::Up {
        Command::MoveBy(-1isize)
    } else if is_char(press, 'g') {
        Command::GoTo(0)
    } else if is_char(press, 'G') {
        Command::GoTo(usize::MAX)
    } else if is_char(press, 'v') || is_char(press, ' ') || press.key == Key::Enter {
        Command::FinishRange
    } else if press.key == Key::Esc {
        Command::CancelRange
    } else if is_char(press, 'a') {
        Command::FinishRangeSelectAll
    } else if is_char(press, 'd') || press.key == Key::Delete {
        Command::Delete(false)
    } else {
        Command::Ignore
    }
}

/// The command a key names while the text filter is typed.
pub open spec fn text_filter_command(press: KeyPress) -> Command {
    match press.key {
        Key::Enter | Key::Esc => Command::SetMode(Mode::Normal),
        Key::Backspace => Command::PopText,
        Key::Char(c) => if is_control_char(c) {
            Command::Ignore
        } else {
            Command::PushText(c)
        },
        _ => Command::Ignore,
    }
}

/// The command a key names while a length bound is typed.
pub open spec fn length_filter_command(press: KeyPress, bound: Bound) -> Command {
    match press.key {
        Key::Enter | Key::Esc => Command::SetMode(Mode::Normal),
        Key::Backspace => Command::PopLength(bound),
        Key::Char(c) => if '0' <= c && c <= '9' {
            Command::PushLength(bound, c)
        } else {
            Command::Ignore
        },
        _ => Command::Ignore,
    }
}

/// The command a key names in `mode`; Ctrl+C quits from anywhere.
pub open spec fn spec_key_command(mode: Mode, press: KeyPress) -> Command {
    if is_char(press, 'c') && press.ctrl {
        Command::Quit
    } else {
        match mode {
            Mode::Normal => normal_command(press),
            Mode::Range => range_command(press),
            Mode::FilterText => text_filter_command(press),
            Mode::FilterMinLen => length_filter_command(press, Bound::Min),
            Mode::FilterMaxLen => length_filter_command(press, Bound::Max),
        }
    }
}

/// Ctrl+C quits from every mode.
pub proof fn lemma_ctrl_c_quits(mode: Mode)
    ensures
        spec_key_command(mode, KeyPress { key: Key::Char('c'), ctrl: true }) == Command::Quit,
{
}

/// The arrow keys move like `j` and `k`: while browsing and while a range
/// is extended, Up names the same command as `k`, one entry up, and Down the
/// same as `j`, one entry down, with or without Ctrl.
pub proof fn lemma_arrows_move_like_j_and_k(mode: Mode, ctrl: bool)
    requires
        mode == Mode::Normal || mode == Mode::Range,
    ensures
        spec_key_command(mode, KeyPress { key: Key::Up, ctrl }) == spec_key_command(
            mode,
            KeyPress { key: Key::Char('k'), ctrl },
        ),
        spec_key_command(mode, KeyPress { key: Key::Up, ctrl }) == Command::MoveBy(-1isize),
        spec_key_command(mode, KeyPress { key: Key::Down, ctrl }) == spec_key_command(
            mode,
            KeyPress { key: Key::Char('j'), ctrl },
        ),
        spec_key_command(mode, KeyPress { key: Key::Down, ctrl }) == Command::MoveBy(1isize),
{
}

/// Esc leaves every prompt the way Enter does, back to browsing with the
/// filters kept; and only Ctrl+C, or `q` or Esc while browsing, quit.
pub proof fn lemma_esc_leaves_prompts(mode: Mode, press: KeyPress)
    ensures
        (mode == Mode::FilterText || mode == Mode::FilterMinLen || mode == Mode::FilterMaxLen) ==> {
            &&& spec_key_command(mode, KeyPress { key: Key::Esc, ctrl: press.ctrl }) == spec_key_command(
                mode,
                KeyPress { key: Key::Enter, ctrl: press.ctrl },
            )
            &&& spec_key_command(mode, KeyPress { key: Key::Esc, ctrl: press.ctrl }) == Command::SetMode(
                Mode::Normal,
            )
        },
        spec_key_command(mode, press) == Command::Quit ==> (press.key == Key::Char('c') && press.ctrl) || (
        mode == Mode::Normal && (press.key == Key::Char('q') || press.key == Key::Esc)),
{
}

fn is_key_char(press: KeyPress, c: char) -> (r: bool)
    ensures
        r == is_char(press, c),
{
    match press.key {
        Key::Char(k) => k == c,
        _ => false,
    }
}

/// The command a key press names in `mode`.
pub fn key_command(mode: Mode, press: KeyPress) -> (r: Command)
    ensures
        r == spec_key_command(mode, press),
{
    if is_key_char(press, 'c') && press.ctrl {
        return Command::Quit;
    }
    match mode {
        Mode::Normal => {
            if is_key_char(press, 'q') || press.key == Key::Esc {
                Command::Quit
            } else if is_key_char(press, 'j') || press.key == Key::Down {
                Command::MoveBy(1)
            } else if is_key_char(press, 'k') || press.key == Key::Up {
                Command::MoveBy(-1)
            } else if is_key_char(press, 'g') {
                Command::GoTo(0)
            } else if is_key_char(press, 'G') {
                Command::GoTo(usize::MAX)
            } else if is_key_char(press, ' ') {
                Command::ToggleSelection
            } else if is_key_char(press, 'v') {
                Command::BeginRange
            } else if is_key_char(press, 'a') {
                Command::ToggleSelectAll
            } else if is_key_char(press, 'r') {
                Command::ToggleOrder
            } else if is_key_char(press, 'd') && press.ctrl {
                Command::Delete(true)
            } else if is_key_char(press, 'd') || press.key == Key::Delete {
                Command::Delete(false)
            } else if is_key_char(press, '/') {
                Command::StartTextFilter
            } else if is_key_char(press, 'm') {
                Command::SetMode(Mode::FilterMinLen)
            } else if is_key_char(press, 'M') {
                Command::SetMode(Mode::FilterMaxLen)
            } else {
                Command::Ignore
            }
        },
        Mode::Range => {
            if is_key_char(press, 'j') || press.key == Key::Down {
                Command::MoveBy(1)
            } else if is_key_char(press, 'k') || press.key == Key::Up {
                Command::MoveBy(-1)
            } else if is_key_char(press, 'g') {
                Command::GoTo(0)
            } else if is_key_char(press, 'G') {
                Command::GoTo(usize::MAX)
            } else if is_key_char(press, 'v') || is_key_char(press, ' ') || press.key == Key::Enter {
                Command::FinishRange
            } else if press.key == Key::Esc {
                Command::CancelRange
            } else if is_key_char(press, 'a') {
                Command::FinishRangeSelectAll
            } else if is_key_char(press, 'd') || press.key == Key::Delete {
                Command::Delete(false)
            } else {
                Command::Ignore
            }
        },
        Mode::FilterText => match press.key {
            Key::Enter | Key::Esc => Command::SetMode(Mode::Normal),
            Key::Backspace => Command::PopText,
            Key::Char(c) => if char_is_control(c) {
                Command::Ignore
            } else {
                Command::PushText(c)
            },
            _ => Command::Ignore,
        },
        Mode::FilterMinLen | Mode::FilterMaxLen => {
            let bound = if mode == Mode::FilterMinLen {
                Bound::Min
            } else {
                Bound::Max
            };
            match press.key {
                Key::Enter | Key::Esc => Command::SetMode(Mode::Normal),
                Key::Backspace => Command::PopLength(bound),
                Key::Char(c) => if '0' <= c && c <= '9' {
                    Command::PushLength(bound, c)
                } else {
                    Command::Ignore
                },
                _ => Command::Ignore,
            }
        },
    }
}

pub open spec fn with_mode(app: App, mode: Mode) -> App {
    App { mode, ..app }
}

impl App {
    /// The view recomputed under the new filters of `self`, with the cursor
    /// and window refitted; the entries, the selection and the rest kept.
    pub open spec fn refiltered(&self, old: &App) -> bool {
        &&& self.entries == old.entries
        &&& self.selected == old.selected
        &&& self.range_anchor == old.range_anchor
        &&& self.range_base == old.range_base
        &&& self.viewport == old.viewport
        &&& self.list_width == old.list_width
        &&& self.newest_first == old.newest_first
        &&& self.deleted == old.deleted
        &&& self.history_path == old.history_path
        &&& self.error_msg == old.error_msg
        &&& self.filtered@ == self.view_order()
        &&& self.wf()
        &&& self.refitted_from(old.cursor as int, old.top as int, old.skip as int)
    }

    /// The length bound `bound` of `self`.
    pub open spec fn bound_value(&self, bound: Bound) -> Option<usize> {
        match bound {
            Bound::Min => self.min_length,
            Bound::Max => self.max_length,
        }
    }

    /// `self` holds `value` for `bound`, the other bound as `old` had it,
    /// and the view recomputed.
    pub open spec fn bound_set(&self, old: &App, bound: Bound, value: Option<usize>) -> bool {
        &&& self.bound_value(bound) == value
        &&& self.bound_value(if bound == Bound::Min { Bound::Max } else { Bound::Min })
            == old.bound_value(if bound == Bound::Min { Bound::Max } else { Bound::Min })
        &&& self.text_filter == old.text_filter
        &&& self.mode == old.mode
        &&& self.refiltered(old)
    }

    /// What running `command` on `old` makes of it, and the outcome it reports.
    pub open spec fn ran(&self, old: &App, command: Command, outcome: Outcome) -> bool {
        let len = old.filtered@.len() as int;
        match command {
            Command::Quit => outcome == Outcome::Quit && *self == *old,
            Command::Ignore => outcome == Outcome::Continue && *self == *old,
            Command::MoveBy(delta) => outcome == Outcome::Continue && self.moved_from(
                old,
                min_nat(saturating_offset(old.cursor, delta), len - 1),
            ),
            Command::GoTo(position) => outcome == Outcome::Continue && self.moved_from(
                old,
                min_nat(position as int, len - 1),
            ),
            Command::ToggleSelection => outcome == Outcome::Continue && self.selection_toggled(old),
            Command::BeginRange => outcome == Outcome::Continue && self.range_begun(old),
            Command::FinishRange => outcome == Outcome::Continue && self.range_finished(old),
            Command::CancelRange => outcome == Outcome::Continue && self.range_cancelled(old),
            Command::FinishRangeSelectAll => outcome == Outcome::Continue && self.select_all_toggled(
                &with_mode(*old, Mode::Normal),
            ),
            Command::ToggleSelectAll => outcome == Outcome::Continue && self.select_all_toggled(old),
            Command::ToggleOrder => outcome == Outcome::Continue && self.order_toggled(old),
            Command::Delete(cursor_only) => {
                let targets = old.delete_target_set(cursor_only);
                if targets.len() == 0 {
                    outcome == Outcome::Continue && *self == *old
                } else {
                    &&& outcome == Outcome::Removed((old.entries@.len() - self.entries@.len()) as usize)
                    &&& self.removed_from(old, targets)
                }
            },
            Command::StartTextFilter => {
                &&& outcome == Outcome::Continue
                &&& self.text_filter@ == Seq::<char>::empty()
                &&& self.min_length == old.min_length
                &&& self.max_length == old.max_length
                &&& self.mode == Mode::FilterText
                &&& self.refiltered(old)
            },
            Command::SetMode(mode) => outcome == Outcome::Continue && *self == with_mode(*old, mode),
            Command::PopText => {
                &&& outcome == Outcome::Continue
                &&& self.text_filter@ == (if old.text_filter@.len() > 0 {
                    old.text_filter@.drop_last()
                } else {
                    old.text_filter@
                })
                &&& self.min_length == old.min_length
                &&& self.max_length == old.max_length
                &&& self.mode == old.mode
                &&& self.refiltered(old)
            },
            Command::PushText(c) => {
                &&& outcome == Outcome::Continue
                &&& self.text_filter@ == old.text_filter@.push(c)
                &&& self.min_length == old.min_length
                &&& self.max_length == old.max_length
                &&& self.mode == old.mode
                &&& self.refiltered(old)
            },
            Command::PopLength(bound) => outcome == Outcome::Continue && self.bound_set(
                old,
                bound,
                spec_pop_digit(old.bound_value(bound)),
            ),
            Command::PushLength(bound, digit) => outcome == Outcome::Continue && match spec_push_digit(
                old.bound_value(bound),
                digit,
            ) {
                Some(value) => self.bound_set(old, bound, Some(value)),
                None => *self == *old,
            },
        }
    }

    fn reapply(&mut self)
        ensures
            final(self).refiltered(old(self)),
            final(self).text_filter == old(self).text_filter,
            final(self).min_length == old(self).min_length,
            final(self).max_length == old(self).max_length,
            final(self).mode == old(self).mode,
    {
        self.apply_filters();
    }

    fn set_bound(&mut self, bound: Bound, value: Option<usize>)
        ensures
            final(self).bound_set(old(self), bound, value),
    {
        match bound {
            Bound::Min => self.min_length = value,
            Bound::Max => self.max_length = value,
        }
        self.reapply();
    }

    /// Runs `command`.
    pub fn run(&mut self, command: Command) -> (r: Outcome)
        requires
            old(self).wf(),
        ensures
            final(self).ran(old(self), command, r),
            final(self).wf(),
    {
        match command {
            Command::Quit => Outcome::Quit,
            Command::Ignore => Outcome::Continue,
            Command::MoveBy(delta) => {
                self.move_cursor(delta);
                Outcome::Continue
            },
            Command::GoTo(position) => {
                self.goto(position);
                Outcome::Continue
            },
            Command::ToggleSelection => {
                self.toggle_selection();
                Outcome::Continue
            },
            Command::BeginRange => {
                self.begin_range();
                Outcome::Continue
            },
            Command::FinishRange => {
                self.finish_range();
                Outcome::Continue
            },
            Command::CancelRange => {
                self.cancel_range();
                Outcome::Continue
            },
            Command::FinishRangeSelectAll => {
                self.finish_range();
                self.toggle_select_all();
                Outcome::Continue
            },
            Command::ToggleSelectAll => {
                self.toggle_select_all();
                Outcome::Continue
            },
            Command::ToggleOrder => {
                self.toggle_order();
                Outcome::Continue
            },
            Command::Delete(cursor_only) => {
                match self.delete(cursor_only) {
                    Some(removed) => Outcome::Removed(removed),
                    None => Outcome::Continue,
                }
            },
            Command::StartTextFilter => {
                self.text_filter = String::new();
                self.mode = Mode::FilterText;
                self.reapply();
                Outcome::Continue
            },
            Command::SetMode(mode) => {
                self.mode = mode;
                Outcome::Continue
            },
            Command::PopText => {
                pop_char(&mut self.text_filter);
                self.reapply();
                Outcome::Continue
            },
            Command::PushText(c) => {
                push_char(&mut self.text_filter, c);
                self.reapply();
                Outcome::Continue
            },
            Command::PopLength(bound) => {
                let current = match bound {
                    Bound::Min => self.min_length,
                    Bound::Max => self.max_length,
                };
                self.set_bound(bound, pop_digit(current));
                Outcome::Continue
            },
            Command::PushLength(bound, digit) => {
                let current = match bound {
                    Bound::Min => self.min_length,
                    Bound::Max => self.max_length,
                };
                match push_digit(current, digit) {
                    Some(value) => self.set_bound(bound, Some(value)),
                    None => {},
                }
                Outcome::Continue
            },
        }
    }

    /// Handles one key press; the outcome tells the front end whether to
    /// quit or to rewrite the history file.
    pub fn handle_key(&mut self, press: KeyPress) -> (r: Outcome)
        requires
            old(self).wf(),
        ensures
            final(self).ran(old(self), spec_key_command(old(self).mode, press), r),
            final(self).wf(),
    {
        let command = key_command(self.mode, press);
        self.run(command)
    }
}

/// The status message for a failed rewrite of `path` with `error`, after
/// `removed` entries went from memory.
pub open spec fn write_failure(path: Seq<char>, error: Seq<char>, removed: usize) -> Seq<char> {
    "could not write "@ + path + ": "@ + error + " ("@ + decimal_chars(removed as nat)
        + " entries removed in memory only)"@
}

impl App {
    /// Records how rewriting the history file went after `removed` entries
    /// were removed: on success they count as deleted; on a failure to write
    /// `path`, the status bar reports `error` and they do not count.
    pub fn record_save(&mut self, removed: usize, failure: Option<(&str, &str)>)
        requires
            failure is None ==> old(self).deleted + removed <= usize::MAX,
        ensures
            match failure {
                Some((path, error)) => {
                    &&& final(self).error_msg matches Some(message) && message@ == write_failure(
                        path@,
                        error@,
                        removed,
                    )
                    &&& *final(self) == (App { error_msg: final(self).error_msg, ..*old(self) })
                },
                None => *final(self) == (App { deleted: (old(self).deleted + removed) as usize, ..*old(self) }),
            },
    {
        match failure {
            Some((path, error)) => {
                let mut message = String::from_str("could not write ");
                message.append(path);
                message.append(": ");
                message.append(error);
                message.append(" (");
                let count = decimal(removed);
                message.append(count.as_str());
                message.append(" entries removed in memory only)");
                self.error_msg = Some(message);
            },
            None => {
                self.deleted = self.deleted + removed;
            },
        }
    }
}

impl App {
    /// A frame has been drawn: a write failure is reported for exactly one
    /// frame, so it is dropped now.
    pub fn frame_shown(&mut self)
        ensures
            *final(self) == (App { error_msg: None, ..*old(self) }),
    {
        self.error_msg = None;
    }
}

} // verus!
