//! The state of the interactive interface and its transitions: line editing,
//! input history, screens, presets and scrolling. What needs the terminal,
//! the clock or the random generator is done by the caller, which hands the
//! results to these transitions.

use vstd::prelude::*;

use crate::expr::{failure_message, ParseError};
use crate::text::{chars_of, string_from_chars, sub_vec, trim, trim_range};
use crate::tui::{PresetEntry, Screen, resolve_preset, resolved_input};

verus! {

/// How many rolls the interface keeps in its history.
pub const MAX_HISTORY: usize = 50;

/// `s` with `c` inserted at position `i`.
pub open spec fn inserted(s: Seq<char>, i: int, c: char) -> Seq<char> {
    s.take(i) + seq![c] + s.skip(i)
}

/// `s` without the character at position `i`.
pub open spec fn removed(s: Seq<char>, i: int) -> Seq<char> {
    s.take(i) + s.skip(i + 1)
}

/// The state of the interactive interface.
pub struct AppState {
    pub screen: Screen,
    pub prev_screen: Screen,
    /// The text being typed.
    pub input: String,
    /// The cursor, as a number of characters before it.
    pub cursor: usize,
    pub input_history: Vec<String>,
    pub input_history_idx: Option<usize>,
    pub error_msg: Option<String>,
    pub should_quit: bool,
    pub presets: Vec<PresetEntry>,
    pub preset_selected: usize,
    pub preset_confirm_delete: bool,
    pub history_scroll: usize,
    pub sims: u64,
}

impl AppState {
    /// The cursor stands within the input, and a selected history entry exists.
    pub open spec fn wf(&self) -> bool {
        &&& self.cursor <= self.input@.len()
        &&& self.input_history_idx matches Some(i) ==> i < self.input_history@.len()
    }

    /// A fresh state on the roller screen, with `initial_expr` typed in and
    /// the cursor after it.
    pub fn new(initial_expr: Option<&str>, sims: u64) -> (s: Self)
        ensures
            s.wf(),
            s.screen == Screen::Roller,
            s.prev_screen == Screen::Roller,
            s.input@ == match initial_expr {
                Some(e) => e@,
                None => Seq::<char>::empty(),
            },
            s.cursor == s.input@.len(),
            s.input_history@.len() == 0,
            s.input_history_idx is None,
            s.error_msg is None,
            !s.should_quit,
            s.presets@.len() == 0,
            s.preset_selected == 0,
            !s.preset_confirm_delete,
            s.history_scroll == 0,
            s.sims == sims,
    {
        let input = match initial_expr {
            Some(e) => string_from_chars(&chars_of(e)),
            None => String::new(),
        };
        let cursor = chars_of(input.as_str()).len();
        AppState {
            screen: Screen::Roller,
            prev_screen: Screen::Roller,
            input,
            cursor,
            input_history: Vec::new(),
            input_history_idx: None,
            error_msg: None,
            should_quit: false,
            presets: Vec::new(),
            preset_selected: 0,
            preset_confirm_delete: false,
            history_scroll: 0,
            sims,
        }
    }

    /// The cursor's position in bytes: the length of the UTF-8 encoding of
    /// the characters before it.
    pub fn cursor_pos(&self) -> (r: usize)
        requires
            self.wf(),
        ensures
            r == vstd::utf8::encode_utf8(self.input@.take(self.cursor as int)).len() as usize,
    {
        let cs = chars_of(self.input.as_str());
        let prefix = string_from_chars(&sub_vec(&cs, 0, self.cursor));
        assert(prefix@ =~= self.input@.take(self.cursor as int));
        prefix.as_str().len()
    }

    /// Types `c` at the cursor, which moves past it, and clears the error.
    pub fn insert_char(&mut self, c: char)
        requires
            old(self).wf(),
        ensures
            final(self).wf(),
            typed(*old(self), *final(self), c),
    {
        self.error_msg = None;
        let cs = chars_of(self.input.as_str());
        let mut out: Vec<char> = Vec::new();
        let mut i: usize = 0;
        while i < self.cursor
            invariant
                0 <= i <= self.cursor <= cs@.len(),
                cs@ == self.input@,
                out@ == cs@.take(i as int),
            decreases self.cursor - i,
        {
            out.push(cs[i]);
            i = i + 1;
            assert(out@ =~= cs@.take(i as int));
        }
        out.push(c);
        let new_cursor = out.len();
        let ghost head = out@;
        while i < cs.len()
            invariant
                self.cursor <= i <= cs@.len(),
                out@ == head + cs@.subrange(self.cursor as int, i as int),
            decreases cs.len() - i,
        {
            out.push(cs[i]);
            i = i + 1;
            assert(out@ =~= head + cs@.subrange(self.cursor as int, i as int));
        }
        assert(out@ =~= inserted(cs@, self.cursor as int, c));
        self.input = string_from_chars(&out);
        self.cursor = new_cursor;
    }
}

// ── Transitions ──────────────────────────────────────────────────────────────

/// `new` is `old` with `c` typed at the cursor and the error cleared.
pub open spec fn typed(old: AppState, new: AppState, c: char) -> bool {
    &&& new.input@ == inserted(old.input@, old.cursor as int, c)
    &&& new.cursor == old.cursor + 1
    &&& new == AppState { input: new.input, cursor: new.cursor, error_msg: None, ..old }
}

/// `new` is `old` with the input replaced by `text` and the cursor at `cursor`.
pub open spec fn edited(old: AppState, new: AppState, text: Seq<char>, cursor: int) -> bool {
    &&& new.input@ == text
    &&& new.cursor == cursor
    &&& new == AppState { input: new.input, cursor: new.cursor, ..old }
}

/// Backspace: the character before the cursor goes, and the cursor with it.
pub open spec fn deleted_before(old: AppState, new: AppState) -> bool {
    if old.cursor > 0 {
        edited(old, new, removed(old.input@, old.cursor - 1), old.cursor - 1)
    } else {
        new == old
    }
}

/// Delete: the character after the cursor goes.
pub open spec fn deleted_after(old: AppState, new: AppState) -> bool {
    if old.cursor < old.input@.len() {
        edited(old, new, removed(old.input@, old.cursor as int), old.cursor as int)
    } else {
        new == old
    }
}

/// Only the cursor moved, to `pos`.
pub open spec fn cursor_at(old: AppState, new: AppState, pos: int) -> bool {
    &&& new.cursor == pos
    &&& new == AppState { cursor: new.cursor, ..old }
}

/// Up in the input history: the previous entry (the last one when none is
/// selected) replaces the input, with the cursor at its end; nothing happens
/// with an empty history or at its first entry.
pub open spec fn history_went_up(old: AppState, new: AppState) -> bool {
    if old.input_history@.len() == 0 || old.input_history_idx == Some(0usize) {
        new == old
    } else {
        let idx: int = match old.input_history_idx {
            Some(i) => i - 1,
            None => old.input_history@.len() - 1,
        };
        &&& new.input@ == old.input_history@[idx]@
        &&& new.cursor == old.input_history@[idx]@.len()
        &&& new == AppState {
            input: new.input,
            cursor: new.cursor,
            input_history_idx: Some(idx as usize),
            ..old
        }
    }
}

/// Down in the input history: the next entry replaces the input, or past
/// the last one the input is emptied and no entry is selected; nothing
/// happens when no entry is selected.
pub open spec fn history_went_down(old: AppState, new: AppState) -> bool {
    match old.input_history_idx {
        None => new == old,
        Some(i) => if i + 1 >= old.input_history@.len() {
            &&& new.input@.len() == 0
            &&& new == AppState { input: new.input, cursor: 0, input_history_idx: None, ..old }
        } else {
            &&& new.input@ == old.input_history@[i + 1]@
            &&& new.cursor == old.input_history@[i + 1]@.len()
            &&& new == AppState {
                input: new.input,
                cursor: new.cursor,
                input_history_idx: Some((i + 1) as usize),
                ..old
            }
        },
    }
}

/// Back to the previous screen, which becomes the roller, with the error
/// cleared.
pub open spec fn went_back(old: AppState, new: AppState) -> bool {
    new == AppState { screen: old.prev_screen, prev_screen: Screen::Roller, error_msg: None, ..old }
}

/// The help screen opens over the current one, or closes as `went_back`.
pub open spec fn help_toggled(old: AppState, new: AppState) -> bool {
    if old.screen == Screen::Help {
        went_back(old, new)
    } else {
        new == AppState { prev_screen: old.screen, screen: Screen::Help, ..old }
    }
}

/// `screen` opens over the current one, with the error cleared.
pub open spec fn opened(old: AppState, new: AppState, screen: Screen) -> bool {
    new == AppState { prev_screen: old.screen, screen, error_msg: None, ..old }
}

/// The preset above is selected, and a pending delete cancelled; nothing
/// happens at the first preset.
pub open spec fn selected_up(old: AppState, new: AppState) -> bool {
    if old.preset_selected > 0 {
        new == AppState {
            preset_selected: (old.preset_selected - 1) as usize,
            preset_confirm_delete: false,
            ..old
        }
    } else {
        new == old
    }
}

/// The preset below is selected, and a pending delete cancelled; nothing
/// happens at the last preset.
pub open spec fn selected_down(old: AppState, new: AppState) -> bool {
    if old.preset_selected + 1 < old.presets@.len() {
        new == AppState {
            preset_selected: (old.preset_selected + 1) as usize,
            preset_confirm_delete: false,
            ..old
        }
    } else {
        new == old
    }
}

/// The selected preset's expression is in the input, with the cursor at its
/// end, and the roller is shown.
pub open spec fn preset_taken(old: AppState, new: AppState) -> bool {
    let e = old.presets@[old.preset_selected as int].expression@;
    &&& new.input@ == e
    &&& new.cursor == e.len()
    &&& new == AppState { input: new.input, cursor: new.cursor, screen: Screen::Roller, ..old }
}

/// One step towards older rolls, while one is left of the `history_len`.
pub open spec fn scrolled_up(old: AppState, new: AppState, history_len: int) -> bool {
    if old.history_scroll + 1 < history_len {
        new == AppState { history_scroll: (old.history_scroll + 1) as usize, ..old }
    } else {
        new == old
    }
}

/// One step towards newer rolls, down to the newest.
pub open spec fn scrolled_down(old: AppState, new: AppState) -> bool {
    if old.history_scroll > 0 {
        new == AppState { history_scroll: (old.history_scroll - 1) as usize, ..old }
    } else {
        new == old
    }
}

impl AppState {
    /// The input with `v` as its characters.
    fn set_input(&mut self, v: &Vec<char>, cursor: usize)
        requires
            cursor <= v@.len(),
        ensures
            edited(*old(self), *final(self), v@, cursor as int),
            final(self).cursor <= final(self).input@.len(),
    {
        self.input = string_from_chars(v);
        self.cursor = cursor;
    }

    /// Removes the character at position `i` of the input.
    fn without_char(&self, i: usize) -> (r: Vec<char>)
        requires
            i < self.input@.len(),
        ensures
            r@ == removed(self.input@, i as int),
    {
        let cs = chars_of(self.input.as_str());
        let n: usize = cs.len();
        assert(i < n);
        let mut out = sub_vec(&cs, 0, i);
        let tail = sub_vec(&cs, i + 1, n);
        crate::text::push_chars(&mut out, &tail);
        assert(out@ =~= removed(self.input@, i as int));
        out
    }

    /// Deletes the character before the cursor.
    pub fn delete_char_before(&mut self)
        requires
            old(self).wf(),
        ensures
            final(self).wf(),
            deleted_before(*old(self), *final(self)),
    {
        if self.cursor > 0 {
            let v = self.without_char(self.cursor - 1);
            self.set_input(&v, self.cursor - 1);
        }
    }

    /// Deletes the character after the cursor.
    pub fn delete_char_after(&mut self)
        requires
            old(self).wf(),
        ensures
            final(self).wf(),
            deleted_after(*old(self), *final(self)),
    {
        let n = chars_of(self.input.as_str()).len();
        if self.cursor < n {
            let v = self.without_char(self.cursor);
            let c = self.cursor;
            self.set_input(&v, c);
        }
    }

    /// Moves the cursor one character left.
    pub fn move_cursor_left(&mut self)
        requires
            old(self).wf(),
        ensures
            final(self).wf(),
            cursor_at(*old(self), *final(self), if old(self).cursor > 0 {
                old(self).cursor - 1
            } else {
                0
            }),
    {
        if self.cursor > 0 {
            self.cursor = self.cursor - 1;
        }
    }

    /// Moves the cursor one character right.
    pub fn move_cursor_right(&mut self)
        requires
            old(self).wf(),
        ensures
            final(self).wf(),
            cursor_at(*old(self), *final(self), if old(self).cursor < old(self).input@.len() {
                old(self).cursor + 1
            } else {
                old(self).cursor as int
            }),
    {
        let n = chars_of(self.input.as_str()).len();
        if self.cursor < n {
            self.cursor = self.cursor + 1;
        }
    }

    /// Moves the cursor to the start.
    pub fn move_cursor_home(&mut self)
        requires
            old(self).wf(),
        ensures
            final(self).wf(),
            cursor_at(*old(self), *final(self), 0),
    {
        self.cursor = 0;
    }

    /// Moves the cursor to the end.
    pub fn move_cursor_end(&mut self)
        requires
            old(self).wf(),
        ensures
            final(self).wf(),
            cursor_at(*old(self), *final(self), old(self).input@.len() as int),
    {
        self.cursor = chars_of(self.input.as_str()).len();
    }

    /// Empties the input.
    pub fn clear_input(&mut self)
        requires
            old(self).wf(),
        ensures
            final(self).wf(),
            edited(*old(self), *final(self), Seq::empty(), 0),
    {
        let v: Vec<char> = Vec::new();
        self.set_input(&v, 0);
    }

    /// Recalls the previous entry of the input history.
    pub fn history_up(&mut self)
        requires
            old(self).wf(),
        ensures
            final(self).wf(),
            history_went_up(*old(self), *final(self)),
    {
        if self.input_history.len() == 0 {
            return;
        }
        let idx: usize = match self.input_history_idx {
            None => self.input_history.len() - 1,
            Some(0) => return,
            Some(i) => i - 1,
        };
        let v = chars_of(self.input_history[idx].as_str());
        self.input_history_idx = Some(idx);
        let n = v.len();
        self.set_input(&v, n);
    }

    /// Recalls the next entry of the input history.
    pub fn history_down(&mut self)
        requires
            old(self).wf(),
        ensures
            final(self).wf(),
            history_went_down(*old(self), *final(self)),
    {
        let idx: usize = match self.input_history_idx {
            None => return,
            Some(i) => i,
        };
        let n: usize = self.input_history.len();
        assert(idx < n);
        if idx + 1 >= n {
            self.input_history_idx = None;
            let v: Vec<char> = Vec::new();
            self.set_input(&v, 0);
        } else {
            let v = chars_of(self.input_history[idx + 1].as_str());
            self.input_history_idx = Some(idx + 1);
            let n = v.len();
            self.set_input(&v, n);
        }
    }

    /// What Enter submits: the trimmed input, and the expression it stands
    /// for once preset names are resolved; `None` for a blank input.
    pub fn submission(&self) -> (r: Option<(String, String)>)
        ensures
            r is None <==> trim(self.input@).len() == 0,
            r matches Some((typed, resolved)) ==> typed@ == trim(self.input@) && resolved@
                == resolved_input(self.presets@, trim(self.input@)),
    {
        let cs = chars_of(self.input.as_str());
        let (a, b) = trim_range(&cs, 0, cs.len());
        assert(cs@.subrange(0, cs.len() as int) =~= cs@);
        if a == b {
            return None;
        }
        let typed = string_from_chars(&sub_vec(&cs, a, b));
        let resolved = resolve_preset(self.presets.as_slice(), typed.as_str());
        Some((typed, resolved))
    }

    /// After a roll of `typed`: it joins the input history unless it repeats
    /// the last entry, the input empties, and the error, the history
    /// selection and the scroll are reset.
    pub fn record_submission(&mut self, typed: String)
        requires
            old(self).wf(),
        ensures
            final(self).wf(),
            final(self).input_history@ == if old(self).input_history@.len() > 0
                && old(self).input_history@.last()@ == typed@ {
                old(self).input_history@
            } else {
                old(self).input_history@.push(typed)
            },
            final(self).input@.len() == 0,
            *final(self) == (AppState {
                input: final(self).input,
                input_history: final(self).input_history,
                cursor: 0,
                input_history_idx: None,
                error_msg: None,
                history_scroll: 0,
                ..*old(self)
            }),
    {
        let n = self.input_history.len();
        let repeats = n > 0 && self.input_history[n - 1] == typed;
        if !repeats {
            self.input_history.push(typed);
        }
        self.input_history_idx = None;
        let v: Vec<char> = Vec::new();
        self.set_input(&v, 0);
        self.error_msg = None;
        self.history_scroll = 0;
    }

    /// The expression the distribution view should show: the trimmed input
    /// with preset names resolved, or, for a blank input, the expression of
    /// the last roll; `Err` with the message to show when there is neither.
    pub fn distribution_source(&self, last_rolled: Option<String>) -> (r: Result<String, String>)
        ensures
            trim(self.input@).len() > 0 ==> (r matches Ok(e) && e@ == resolved_input(
                self.presets@,
                trim(self.input@),
            )),
            trim(self.input@).len() == 0 ==> match last_rolled {
                Some(l) => (r matches Ok(e) && e@ == l@),
                None => (r matches Err(m) && m@ == "Type an expression first"@),
            },
    {
        match self.submission() {
            Some((_, resolved)) => Ok(resolved),
            None => match last_rolled {
                Some(l) => Ok(l),
                None => Err("Type an expression first".to_string()),
            },
        }
    }

    /// Shows `msg` as the error, changing nothing else.
    pub fn fail(&mut self, msg: String)
        requires
            old(self).wf(),
        ensures
            final(self).wf(),
            *final(self) == (AppState { error_msg: Some(msg), ..*old(self) }),
    {
        self.error_msg = Some(msg);
    }

    /// Shows the message of the parse error `e` as the error, changing
    /// nothing else.
    pub fn parse_failed(&mut self, e: &ParseError)
        requires
            old(self).wf(),
        ensures
            final(self).wf(),
            final(self).error_msg matches Some(m) && m@ == failure_message(e@),
            *final(self) == (AppState { error_msg: final(self).error_msg, ..*old(self) }),
    {
        self.fail(e.to_string());
    }

    /// Opens `screen` over the current one and clears the error.
    pub fn open_screen(&mut self, screen: Screen)
        requires
            old(self).wf(),
        ensures
            final(self).wf(),
            opened(*old(self), *final(self), screen),
    {
        self.prev_screen = self.screen;
        self.screen = screen;
        self.error_msg = None;
    }

    /// Opens the presets screen on a freshly loaded list, keeping the
    /// selection when it still points at a preset.
    pub fn open_presets(&mut self, presets: Vec<PresetEntry>)
        requires
            old(self).wf(),
        ensures
            final(self).wf(),
            *final(self) == (AppState {
                presets: presets,
                prev_screen: old(self).screen,
                screen: Screen::Presets,
                preset_confirm_delete: false,
                preset_selected: if old(self).preset_selected >= presets@.len() {
                    0
                } else {
                    old(self).preset_selected
                },
                ..*old(self)
            }),
    {
        self.presets = presets;
        self.prev_screen = self.screen;
        self.screen = Screen::Presets;
        self.preset_confirm_delete = false;
        if self.preset_selected >= self.presets.len() {
            self.preset_selected = 0;
        }
    }

    /// Selects the preset above, cancelling a pending delete.
    pub fn preset_select_up(&mut self)
        requires
            old(self).wf(),
        ensures
            final(self).wf(),
            selected_up(*old(self), *final(self)),
    {
        if self.preset_selected > 0 {
            self.preset_selected = self.preset_selected - 1;
            self.preset_confirm_delete = false;
        }
    }

    /// Selects the preset below, cancelling a pending delete.
    pub fn preset_select_down(&mut self)
        requires
            old(self).wf(),
        ensures
            final(self).wf(),
            selected_down(*old(self), *final(self)),
    {
        if self.presets.len() > 0 && self.preset_selected < self.presets.len() - 1 {
            self.preset_selected = self.preset_selected + 1;
            self.preset_confirm_delete = false;
        }
    }

    /// Puts the selected preset's expression in the input and returns to the
    /// roller, ready to be submitted; false, with nothing changed, when no
    /// preset is selected.
    pub fn take_selected_preset(&mut self) -> (taken: bool)
        requires
            old(self).wf(),
        ensures
            final(self).wf(),
            taken == (old(self).preset_selected < old(self).presets@.len()),
            !taken ==> *final(self) == *old(self),
            taken ==> preset_taken(*old(self), *final(self)),
    {
        if self.preset_selected < self.presets.len() {
            let v = chars_of(self.presets[self.preset_selected].expression.as_str());
            let n = v.len();
            self.set_input(&v, n);
            self.screen = Screen::Roller;
            true
        } else {
            false
        }
    }

    /// The delete key on the presets screen: the first press asks for
    /// confirmation; the second cancels it and returns the name of the
    /// selected preset, which is to be deleted.
    pub fn request_preset_delete(&mut self) -> (name: Option<String>)
        requires
            old(self).wf(),
        ensures
            final(self).wf(),
            *final(self) == (AppState {
                preset_confirm_delete: !old(self).preset_confirm_delete,
                ..*old(self)
            }),
            !old(self).preset_confirm_delete ==> name is None,
            old(self).preset_confirm_delete ==> (name is Some <==> old(self).preset_selected
                < old(self).presets@.len()),
            name matches Some(n) ==> n@ == selected_name(*old(self)),
    {
        if !self.preset_confirm_delete {
            self.preset_confirm_delete = true;
            return None;
        }
        self.preset_confirm_delete = false;
        if self.preset_selected < self.presets.len() {
            let n = string_from_chars(&chars_of(self.presets[self.preset_selected].name.as_str()));
            Some(n)
        } else {
            None
        }
    }

    /// After a preset was deleted: the reloaded list, with the selection
    /// moved up when it fell off the end.
    pub fn presets_reloaded(&mut self, presets: Vec<PresetEntry>)
        requires
            old(self).wf(),
        ensures
            final(self).wf(),
            *final(self) == (AppState {
                presets: presets,
                preset_selected: if old(self).preset_selected >= presets@.len()
                    && old(self).preset_selected > 0 {
                    (old(self).preset_selected - 1) as usize
                } else {
                    old(self).preset_selected
                },
                ..*old(self)
            }),
    {
        self.presets = presets;
        if self.preset_selected >= self.presets.len() && self.preset_selected > 0 {
            self.preset_selected = self.preset_selected - 1;
        }
    }

    /// Returns to the previous screen.
    pub fn go_back(&mut self)
        requires
            old(self).wf(),
        ensures
            final(self).wf(),
            went_back(*old(self), *final(self)),
    {
        self.screen = self.prev_screen;
        self.prev_screen = Screen::Roller;
        self.error_msg = None;
    }

    /// Opens or closes the help screen.
    pub fn toggle_help(&mut self)
        requires
            old(self).wf(),
        ensures
            final(self).wf(),
            help_toggled(*old(self), *final(self)),
    {
        if self.screen == Screen::Help {
            self.go_back();
        } else {
            self.prev_screen = self.screen;
            self.screen = Screen::Help;
        }
    }

    /// Scrolls the history towards older rolls, of which there are
    /// `history_len` in all.
    pub fn scroll_history_up(&mut self, history_len: usize)
        requires
            old(self).wf(),
        ensures
            final(self).wf(),
            scrolled_up(*old(self), *final(self), history_len as int),
    {
        if self.history_scroll < history_len && history_len - self.history_scroll > 1 {
            self.history_scroll = self.history_scroll + 1;
        }
    }

    /// Scrolls the history towards newer rolls.
    pub fn scroll_history_down(&mut self)
        requires
            old(self).wf(),
        ensures
            final(self).wf(),
            scrolled_down(*old(self), *final(self)),
    {
        if self.history_scroll > 0 {
            self.history_scroll = self.history_scroll - 1;
        }
    }
}

// ── Keys ─────────────────────────────────────────────────────────────────────

/// A key as the interface sees it.
#[derive(Clone, Copy, Debug, PartialEq, Eq, Structural)]
pub enum Key {
    Char(char),
    Enter,
    Backspace,
    Delete,
    Left,
    Right,
    Up,
    Down,
    Home,
    End,
    Tab,
    Esc,
    PageUp,
    PageDown,
    F(u8),
    Other,
}

/// What a key asks of the caller beyond the change of state: the work that
/// needs the random generator, the clock or the disk.
#[derive(Clone, Debug, PartialEq, Eq)]
pub enum KeyAction {
    Nothing,
    /// Roll what `submission` gives.
    Submit,
    /// Compute the distribution of what `distribution_source` gives.
    OpenDistribution,
    /// Load the presets and hand them to `open_presets`.
    OpenPresets,
    /// Move the probability target by this much.
    MoveTarget(i64),
    SimsUp,
    SimsDown,
    /// Delete the preset of this name and hand the reloaded list to
    /// `presets_reloaded`.
    DeletePreset(String),
}

/// `new` is `old` with `should_quit` set.
pub open spec fn quit(old: AppState, new: AppState) -> bool {
    new == AppState { should_quit: true, ..old }
}

/// A key on the roller screen.
pub open spec fn roller_key(
    old: AppState,
    new: AppState,
    key: Key,
    ctrl: bool,
    history_len: int,
    action: KeyAction,
) -> bool {
    match key {
        Key::Enter => new == old && action == KeyAction::Submit,
        Key::Tab => new == (AppState { prev_screen: old.screen, screen: Screen::History, ..old })
            && action == KeyAction::Nothing,
        Key::F(3) => new == old && action == KeyAction::OpenDistribution,
        Key::F(2) => new == old && action == KeyAction::OpenPresets,
        _ => action == KeyAction::Nothing && match key {
            Key::Char(c) => if !ctrl {
                typed(old, new, c)
            } else if c == 'a' {
                cursor_at(old, new, 0)
            } else if c == 'e' {
                cursor_at(old, new, old.input@.len() as int)
            } else if c == 'u' {
                edited(old, new, Seq::empty(), 0)
            } else {
                new == old
            },
            Key::Backspace => deleted_before(old, new),
            Key::Delete => deleted_after(old, new),
            Key::Left => cursor_at(old, new, if old.cursor > 0 { old.cursor - 1 } else { 0 }),
            Key::Right => cursor_at(
                old,
                new,
                if old.cursor < old.input@.len() { old.cursor + 1 } else { old.cursor as int },
            ),
            Key::Home => cursor_at(old, new, 0),
            Key::End => cursor_at(old, new, old.input@.len() as int),
            Key::Up => history_went_up(old, new),
            Key::Down => history_went_down(old, new),
            Key::Esc => if old.error_msg is Some {
                new == AppState { error_msg: None, ..old }
            } else {
                quit(old, new)
            },
            Key::F(1) => help_toggled(old, new),
            Key::PageUp => scrolled_up(old, new, history_len),
            Key::PageDown => scrolled_down(old, new),
            _ => new == old,
        },
    }
}

/// A key on the distribution screen.
pub open spec fn distribution_key(old: AppState, new: AppState, key: Key, action: KeyAction) -> bool {
    match key {
        Key::Esc | Key::Tab | Key::Char('q') => went_back(old, new) && action == KeyAction::Nothing,
        _ => new == old && action == match key {
            Key::Left => KeyAction::MoveTarget(-1i64),
            Key::Right => KeyAction::MoveTarget(1i64),
            Key::Char('+') | Key::Char('=') => KeyAction::SimsUp,
            Key::Char('-') | Key::Char('_') => KeyAction::SimsDown,
            _ => KeyAction::Nothing,
        },
    }
}

/// A key on the presets screen.
pub open spec fn presets_key(old: AppState, new: AppState, key: Key, action: KeyAction) -> bool {
    let calm = AppState { preset_confirm_delete: false, ..old };
    match key {
        Key::Esc | Key::F(2) | Key::Char('q') => went_back(calm, new) && action
            == KeyAction::Nothing,
        Key::Up | Key::Char('k') => selected_up(old, new) && action == KeyAction::Nothing,
        Key::Down | Key::Char('j') => selected_down(old, new) && action == KeyAction::Nothing,
        Key::Enter => if old.preset_selected < old.presets@.len() {
            preset_taken(old, new) && action == KeyAction::Submit
        } else {
            new == old && action == KeyAction::Nothing
        },
        Key::Char('d') => {
            &&& new == AppState { preset_confirm_delete: !old.preset_confirm_delete, ..old }
            &&& if old.preset_confirm_delete && old.preset_selected < old.presets@.len() {
                action matches KeyAction::DeletePreset(n) && n@ == selected_name(old)
            } else {
                action == KeyAction::Nothing
            }
        },
        _ => new == calm && action == KeyAction::Nothing,
    }
}

/// A key on the history tab.
pub open spec fn history_key(
    old: AppState,
    new: AppState,
    key: Key,
    history_len: int,
    action: KeyAction,
) -> bool {
    &&& action == KeyAction::Nothing
    &&& match key {
        Key::Tab | Key::Esc | Key::Char('q') => went_back(old, new),
        Key::PageUp => scrolled_up(old, new, history_len),
        Key::PageDown => scrolled_down(old, new),
        Key::F(1) => help_toggled(old, new),
        _ => new == old,
    }
}

/// A key on the help screen.
pub open spec fn help_key(old: AppState, new: AppState, key: Key, action: KeyAction) -> bool {
    &&& action == KeyAction::Nothing
    &&& match key {
        Key::Esc | Key::F(1) | Key::Char('q') => went_back(old, new),
        _ => new == old,
    }
}

/// A key event: only presses count; Ctrl+C quits on every screen; other
/// keys go by the screen shown.
pub open spec fn key_handled(
    old: AppState,
    new: AppState,
    key: Key,
    ctrl: bool,
    press: bool,
    history_len: int,
    action: KeyAction,
) -> bool {
    if !press {
        new == old && action == KeyAction::Nothing
    } else if ctrl && key == Key::Char('c') {
        quit(old, new) && action == KeyAction::Nothing
    } else {
        match old.screen {
            Screen::Roller => roller_key(old, new, key, ctrl, history_len, action),
            Screen::Distribution => distribution_key(old, new, key, action),
            Screen::Presets => presets_key(old, new, key, action),
            Screen::History => history_key(old, new, key, history_len, action),
            Screen::Help => help_key(old, new, key, action),
        }
    }
}

impl AppState {
    /// Handles a key event; `ctrl` says whether Control was held, `press`
    /// whether it is a press (not a release or a repeat), and `history_len`
    /// is the number of rolls in the history.
    pub fn handle_key(&mut self, key: Key, ctrl: bool, press: bool, history_len: usize) -> (action:
        KeyAction)
        requires
            old(self).wf(),
        ensures
            final(self).wf(),
            key_handled(*old(self), *final(self), key, ctrl, press, history_len as int, action),
    {
        if !press {
            return KeyAction::Nothing;
        }
        if ctrl && key == Key::Char('c') {
            self.should_quit = true;
            return KeyAction::Nothing;
        }
        match self.screen {
            Screen::Roller => self.roller_key(key, ctrl, history_len),
            Screen::Distribution => self.distribution_key(key),
            Screen::Presets => self.presets_key(key),
            Screen::History => {
                match key {
                    Key::Tab | Key::Esc | Key::Char('q') => self.go_back(),
                    Key::PageUp => self.scroll_history_up(history_len),
                    Key::PageDown => self.scroll_history_down(),
                    Key::F(1) => self.toggle_help(),
                    _ => {},
                }
                KeyAction::Nothing
            },
            Screen::Help => {
                match key {
                    Key::Esc | Key::F(1) | Key::Char('q') => self.go_back(),
                    _ => {},
                }
                KeyAction::Nothing
            },
        }
    }

    fn roller_key(&mut self, key: Key, ctrl: bool, history_len: usize) -> (action: KeyAction)
        requires
            old(self).wf(),
        ensures
            final(self).wf(),
            roller_key(*old(self), *final(self), key, ctrl, history_len as int, action),
    {
        match key {
            Key::Enter => return KeyAction::Submit,
            Key::Tab => {
                self.prev_screen = self.screen;
                self.screen = Screen::History;
                return KeyAction::Nothing;
            },
            Key::F(3) => return KeyAction::OpenDistribution,
            Key::F(2) => return KeyAction::OpenPresets,
            Key::Char(c) => {
                if !ctrl {
                    self.insert_char(c);
                } else if c == 'a' {
                    self.move_cursor_home();
                } else if c == 'e' {
                    self.move_cursor_end();
                } else if c == 'u' {
                    self.clear_input();
                }
            },
            Key::Backspace => self.delete_char_before(),
            Key::Delete => self.delete_char_after(),
            Key::Left => self.move_cursor_left(),
            Key::Right => self.move_cursor_right(),
            Key::Home => self.move_cursor_home(),
            Key::End => self.move_cursor_end(),
            Key::Up => self.history_up(),
            Key::Down => self.history_down(),
            Key::Esc => {
                if self.error_msg.is_some() {
                    self.error_msg = None;
                } else {
                    self.should_quit = true;
                }
            },
            Key::F(1) => self.toggle_help(),
            Key::PageUp => self.scroll_history_up(history_len),
            Key::PageDown => self.scroll_history_down(),
            _ => {},
        }
        KeyAction::Nothing
    }

    fn distribution_key(&mut self, key: Key) -> (action: KeyAction)
        requires
            old(self).wf(),
        ensures
            final(self).wf(),
            distribution_key(*old(self), *final(self), key, action),
    {
        match key {
            Key::Esc | Key::Tab | Key::Char('q') => {
                self.go_back();
                KeyAction::Nothing
            },
            Key::Left => KeyAction::MoveTarget(-1i64),
            Key::Right => KeyAction::MoveTarget(1i64),
            Key::Char('+') | Key::Char('=') => KeyAction::SimsUp,
            Key::Char('-') | Key::Char('_') => KeyAction::SimsDown,
            _ => KeyAction::Nothing,
        }
    }

    fn presets_key(&mut self, key: Key) -> (action: KeyAction)
        requires
            old(self).wf(),
        ensures
            final(self).wf(),
            presets_key(*old(self), *final(self), key, action),
    {
        match key {
            Key::Esc | Key::F(2) | Key::Char('q') => {
                self.preset_confirm_delete = false;
                self.go_back();
                KeyAction::Nothing
            },
            Key::Up | Key::Char('k') => {
                self.preset_select_up();
                KeyAction::Nothing
            },
            Key::Down | Key::Char('j') => {
                self.preset_select_down();
                KeyAction::Nothing
            },
            Key::Enter => {
                if self.take_selected_preset() {
                    KeyAction::Submit
                } else {
                    KeyAction::Nothing
                }
            },
            Key::Char('d') => match self.request_preset_delete() {
                Some(n) => KeyAction::DeletePreset(n),
                None => KeyAction::Nothing,
            },
            _ => {
                self.preset_confirm_delete = false;
                KeyAction::Nothing
            },
        }
    }
}

/// `v` with `item` pushed, and its first element dropped when it then holds
/// more than `cap`.
pub fn push_capped<T>(v: &mut Vec<T>, item: T, cap: usize)
    ensures
        final(v)@ == if old(v)@.len() + 1 > cap {
            old(v)@.push(item).skip(1)
        } else {
            old(v)@.push(item)
        },
{
    v.push(item);
    if v.len() > cap {
        v.remove(0);
    }
}

/// Typing a character and then deleting it with Backspace gives back the
/// input and the cursor as they were; only the error is cleared.
pub proof fn law_type_then_backspace(s0: AppState, s1: AppState, s2: AppState, c: char)
    requires
        s0.wf(),
        typed(s0, s1, c),
        deleted_before(s1, s2),
    ensures
        s2.input@ == s0.input@,
        s2 == (AppState { input: s2.input, error_msg: None, ..s0 }),
{
    let i = s0.cursor as int;
    assert(s1.cursor == i + 1);
    assert(s1.input@ == inserted(s0.input@, i, c));
    assert(removed(inserted(s0.input@, i, c), i) =~= s0.input@);
    assert(s2.input@ == removed(s1.input@, i));
}

/// The name of the selected preset.
pub open spec fn selected_name(s: AppState) -> Seq<char> {
    s.presets@[s.preset_selected as int].name@
}

/// `v` limited to `lo..=hi`.
pub open spec fn clamped(v: int, lo: int, hi: int) -> int {
    if v < lo {
        lo
    } else if v > hi {
        hi
    } else {
        v
    }
}

/// The target after moving it by `delta` within `min..=max`: from the current
/// target, or from the middle of the range when there is none.
pub open spec fn moved_target(current: Option<i64>, min: i64, max: i64, delta: i64) -> int {
    let start: int = match current {
        Some(t) => t as int,
        None => min + (max - min) / 2,
    };
    clamped(start + delta, min as int, max as int)
}

/// Moves the probability target by `delta` within `min..=max`.
pub fn next_target(current: Option<i64>, min: i64, max: i64, delta: i64) -> (r: i64)
    requires
        min <= max,
        max - min <= i64::MAX,
        current matches Some(t) ==> i64::MIN <= t + delta <= i64::MAX,
        current is None ==> i64::MIN <= min + (max - min) / 2 + delta <= i64::MAX,
    ensures
        r == moved_target(current, min, max, delta),
{
    let start: i64 = match current {
        Some(t) => t,
        None => min + (max - min) / 2,
    };
    let v = start + delta;
    if v < min {
        min
    } else if v > max {
        max
    } else {
        v
    }
}

} // verus!
