use crate::editor::{cut, is_printable, lemma_word_start_bounds, word_start};
use crate::font::{glyph_slot, has_glyph, Font};
use crate::picker::Picker;
use crate::render::{
    cell_pixel, fill_background, fits, in_cell, in_line, lemma_lines_disjoint, lemma_pixel_injective, paint_glyph,
    paint_line, shade, text_pixel,
};
use vstd::prelude::*;

verus! {

/// Modifier keys held during a key press.
#[derive(Clone, Copy, Debug, PartialEq, Eq, Structural)]
pub struct Modifiers {
    pub ctrl: bool,
    pub alt: bool,
    pub logo: bool,
}

/// The keys the picker reacts to; `Letter` is a lower-case letter key.
#[derive(Clone, Copy, Debug, PartialEq, Eq, Structural)]
pub enum Keycode {
    Escape,
    Return,
    BackSpace,
    Up,
    Down,
    Left,
    Right,
    Letter(char),
    Other,
}

/// An input event, already decoded by the host.
#[derive(Debug)]
pub enum Event {
    Focused(bool),
    Keyboard { modifiers: Modifiers, keycode: Keycode, utf8: Option<String> },
}

/// One thing a key press asks of the picker.
#[derive(Clone, Copy, Debug, PartialEq, Eq, Structural)]
pub enum Command {
    Insert(char),
    CursorToStart,
    CursorToEnd,
    CursorLeft,
    CursorRight,
    DeleteWord,
    DeleteTillStart,
    DeleteTillEnd,
    Delete,
    Next,
    Prev,
    Confirm,
    Close,
}

/// Bindings of Ctrl with a letter.
pub open spec fn ctrl_command(k: Keycode) -> Option<Command> {
    match k {
        Keycode::Letter(c) => if c == 'n' {
            Some(Command::Next)
        } else if c == 'p' {
            Some(Command::Prev)
        } else if c == 'a' {
            Some(Command::CursorToStart)
        } else if c == 'e' {
            Some(Command::CursorToEnd)
        } else if c == 'w' {
            Some(Command::DeleteWord)
        } else if c == 'u' {
            Some(Command::DeleteTillStart)
        } else if c == 'k' {
            Some(Command::DeleteTillEnd)
        } else if c == 'b' {
            Some(Command::CursorLeft)
        } else if c == 'f' {
            Some(Command::CursorRight)
        } else {
            None
        },
        _ => None,
    }
}

/// Bindings of keys whatever the modifiers.
pub open spec fn key_command(k: Keycode) -> Option<Command> {
    match k {
        Keycode::Return => Some(Command::Confirm),
        Keycode::BackSpace => Some(Command::Delete),
        Keycode::Up => Some(Command::Prev),
        Keycode::Down => Some(Command::Next),
        Keycode::Left => Some(Command::CursorLeft),
        Keycode::Right => Some(Command::CursorRight),
        _ => None,
    }
}

pub open spec fn opt_seq(c: Option<Command>) -> Seq<Command> {
    match c {
        Some(c) => seq![c],
        None => Seq::empty(),
    }
}

/// The character a key press types: the last character of its text, when no
/// Ctrl, Alt or Logo is held and it is printable.
pub open spec fn typed_char(modifiers: Modifiers, utf8: Option<String>) -> Option<char> {
    match utf8 {
        Some(s) => if s@.len() > 0 && !modifiers.ctrl && !modifiers.alt && !modifiers.logo && is_printable(s@.last()) {
            Some(s@.last())
        } else {
            None
        },
        None => None,
    }
}

/// What an event asks for, in order. Losing focus closes the picker unless
/// it is kept open; Escape and Ctrl+C close it; any other key press types its
/// character, then runs its Ctrl binding, then its plain binding.
pub open spec fn bindings(ev: Event, keep_open: bool) -> Seq<Command> {
    match ev {
        Event::Focused(f) => if !f && !keep_open {
            seq![Command::Close]
        } else {
            Seq::empty()
        },
        Event::Keyboard { modifiers, keycode, utf8 } => if keycode == Keycode::Escape || (keycode == Keycode::Letter('c') && modifiers.ctrl) {
            seq![Command::Close]
        } else {
            let typed = match typed_char(modifiers, utf8) {
                Some(c) => seq![Command::Insert(c)],
                None => Seq::empty(),
            };
            let ctrl = if modifiers.ctrl { opt_seq(ctrl_command(keycode)) } else { Seq::empty() };
            typed + ctrl + opt_seq(key_command(keycode))
        },
    }
}

/// The query and cursor after an editing command; other commands leave them.
pub open spec fn edit_query(q: Seq<char>, c: int, cmd: Command) -> (Seq<char>, int) {
    match cmd {
        Command::Insert(ch) => if is_printable(ch) { (q.insert(c, ch), c + 1) } else { (q, c) },
        Command::CursorToStart => (q, 0),
        Command::CursorToEnd => (q, q.len() as int),
        Command::CursorLeft => (q, if c == 0 { 0 } else { c - 1 }),
        Command::CursorRight => (q, if c < q.len() { c + 1 } else { c }),
        Command::DeleteWord => (cut(q, word_start(q, c), c), word_start(q, c)),
        Command::DeleteTillStart => (q.subrange(c, q.len() as int), 0),
        Command::DeleteTillEnd => (q.subrange(0, c), c),
        Command::Delete => if c > 0 { (q.remove(c - 1), c - 1) } else { (q, c) },
        _ => (q, c),
    }
}

/// The selection after a command, among `n` matches.
pub open spec fn move_selection(sel: int, n: int, cmd: Command) -> int {
    match cmd {
        Command::Next => if n == 0 { sel } else { (sel + 1) % n },
        Command::Prev => if n == 0 { sel } else { (sel + n - 1) % n },
        _ => sel,
    }
}

/// Query, cursor, selection and whether the picker still runs, after one command.
pub open spec fn step(s: (Seq<char>, int, int, bool), n: int, cmd: Command) -> (Seq<char>, int, int, bool) {
    let e = edit_query(s.0, s.1, cmd);
    (e.0, e.1, move_selection(s.2, n, cmd), s.3 && cmd != Command::Close && cmd != Command::Confirm)
}

/// The state after the commands, one after the other.
pub open spec fn run(s: (Seq<char>, int, int, bool), n: int, cmds: Seq<Command>) -> (Seq<char>, int, int, bool)
    decreases cmds.len(),
{
    if cmds.len() == 0 {
        s
    } else {
        step(run(s, n, cmds.drop_last()), n, cmds.last())
    }
}

/// Whatever the commands, the cursor stays between 0 and the query's length.
pub proof fn lemma_cursor_in_bounds(s: (Seq<char>, int, int, bool), n: int, cmds: Seq<Command>)
    requires
        0 <= s.1 <= s.0.len(),
    ensures
        0 <= run(s, n, cmds).1 <= run(s, n, cmds).0.len(),
    decreases cmds.len(),
{
    if cmds.len() > 0 {
        lemma_cursor_in_bounds(s, n, cmds.drop_last());
        let t = run(s, n, cmds.drop_last());
        lemma_word_start_bounds(t.0, t.1);
    }
}

/// Text of a match line: a marker (`>` on the selected line), a space, then
/// the option.
pub open spec fn match_line(selected: bool, option: Seq<char>) -> Seq<char> {
    seq![if selected { '>' } else { ' ' }, ' '] + option
}

/// The launcher: a picker over the options, the font it is drawn with, and
/// whether it still runs. With `keep_open`, losing focus does not close it.
pub struct App {
    pub picker: Picker,
    pub font: Font,
    pub running: bool,
    pub keep_open: bool,
}

impl App {
    pub open spec fn wf(&self) -> bool {
        self.picker.wf() && self.font.wf()
    }

    pub open spec fn state(&self) -> (Seq<char>, int, int, bool) {
        (
            self.picker.search.query_view(),
            self.picker.search.cursor_view() as int,
            self.picker.selection_view() as int,
            self.running,
        )
    }

    /// The line a confirmation outputs: the selected option, or the query
    /// when nothing matches.
    pub open spec fn confirmed(&self) -> Seq<char> {
        if self.picker.matches_view().len() > 0 {
            self.picker.options_view()[self.picker.matches_view()[self.picker.selection_view() as int].1 as int]
        } else {
            self.picker.search.query_view()
        }
    }

    /// How many match lines a buffer `height` pixels tall shows below the
    /// query line.
    pub open spec fn shown(&self, height: int) -> int {
        let lines = height / (self.font.height as int);
        if lines <= 1 {
            0
        } else if lines - 1 < self.picker.matches_view().len() {
            lines - 1
        } else {
            self.picker.matches_view().len() as int
        }
    }

    /// Text of match line `i`.
    pub open spec fn line_of(&self, i: int) -> Seq<char> {
        match_line(i == self.picker.selection_view(), self.picker.options_view()[self.picker.matches_view()[i].1 as int])
    }

    /// Byte `ch` of pixel `x`, `y` of character `k` of match line `i`.
    pub open spec fn match_pixel(&self, width: int, i: int, k: int, x: int, y: int, ch: int) -> int {
        text_pixel(width, self.font.width as int, self.font.height as int, i + 1, k, x, y, ch)
    }

    /// Whether `idx` lies in a character cell of match line `i`.
    pub open spec fn in_match_line(&self, width: int, i: int, idx: int) -> bool {
        in_line(width, self.font.width as int, self.font.height as int, i + 1, self.line_of(i).len() as int, idx)
    }

    /// Whether `idx` lies in the cursor bar: one pixel wide, one line tall,
    /// left of the cursor's character.
    pub open spec fn in_cursor(&self, width: int, idx: int) -> bool {
        in_cell(width, self.picker.search.cursor_view() * self.font.width, 0, 1, self.font.height as int, idx)
    }

    pub fn new(font: Font, options: Vec<String>, keep_open: bool) -> (r: App)
        requires
            font.wf(),
        ensures
            r.wf(),
            r.running,
            r.keep_open == keep_open,
            r.font == font,
            r.picker.options_view() == options@.map_values(|s: String| s@),
            r.state() == (Seq::<char>::empty(), 0int, 0int, true),
            r.picker.matches_view().len() == 0,
    {
        App { font, picker: Picker::new(options), running: true, keep_open }
    }

    pub fn running(&self) -> (r: bool)
        ensures
            r == self.running,
    {
        self.running
    }

    pub fn close(&mut self)
        ensures
            !final(self).running,
            final(self).picker == old(self).picker,
            final(self).font == old(self).font,
            final(self).keep_open == old(self).keep_open,
    {
        self.running = false;
    }

    /// Draws a frame into `canvas`, a buffer of 4-byte pixels `width` pixels
    /// wide: a white background, the query on the first line, the ranked
    /// matches below it as many as fit, the selected one inverted, and a
    /// black bar at the cursor. Pixels right of `width` are clipped.
    pub fn draw(&mut self, canvas: &mut [u8], width: u32, height: u32)
        requires
            old(self).wf(),
        ensures
            final(self).wf(),
            final(self).picker.ranked(),
            final(self).picker.search == old(self).picker.search,
            final(self).picker.options_view() == old(self).picker.options_view(),
            final(self).picker.selection_view() == if old(self).picker.selection_view() < final(self).picker.matches_view().len() {
                old(self).picker.selection_view() as int
            } else if final(self).picker.matches_view().len() == 0 {
                0
            } else {
                final(self).picker.matches_view().len() - 1
            },
            final(self).font == old(self).font,
            final(self).running == old(self).running,
            final(self).keep_open == old(self).keep_open,
            final(canvas)@.len() == old(canvas)@.len(),
            ({
                let fw = old(self).font.width as int;
                let fh = old(self).font.height as int;
                let w = width as int;
                let len = old(canvas)@.len() as int;
                let q = old(self).picker.search.query_view();
                let c = old(self).picker.search.cursor_view() as int;
                let me = *final(self);
                &&& forall|y: int, ch: int| 0 <= y < fh && 0 <= ch < 3 && c * fw < w && fits(w, c * fw, 0, 0, y, len)
                    ==> final(canvas)@[#[trigger] cell_pixel(w, c * fw, 0, 0, y, ch)] == 0u8
                &&& forall|k: int, x: int, y: int, ch: int|
                    0 <= k < q.len() && has_glyph(q[k]) && 0 <= y < fh && 0 <= x < fw && k * fw + x < w && 0 <= ch < 3
                        && fits(w, k * fw, 0, x, y, len) && !me.in_cursor(w, text_pixel(w, fw, fh, 0, k, x, y, ch))
                    ==> final(canvas)@[#[trigger] text_pixel(w, fw, fh, 0, k, x, y, ch)]
                        == old(self).font.glyphs@[glyph_slot(q[k])]@[y * fw + x]
                &&& forall|i: int, k: int, x: int, y: int, ch: int|
                    0 <= i < me.shown(height as int) && 0 <= k < me.line_of(i).len() && has_glyph(me.line_of(i)[k])
                        && 0 <= y < fh && 0 <= x < fw && k * fw + x < w && 0 <= ch < 3
                        && fits(w, k * fw, (i + 1) * fh, x, y, len)
                    ==> final(canvas)@[#[trigger] me.match_pixel(w, i, k, x, y, ch)]
                        == shade(old(self).font.glyphs@[glyph_slot(me.line_of(i)[k])]@[y * fw + x], i == me.picker.selection_view())
                &&& forall|idx: int| 0 <= idx < len && !in_line(w, fw, fh, 0, q.len() as int, idx) && !me.in_cursor(w, idx)
                        && !(exists|i: int| 0 <= i < me.shown(height as int) && #[trigger] me.in_match_line(w, i, idx))
                    ==> #[trigger] final(canvas)@[idx] == 255u8
            }),
    {
        let fw = self.font.width;
        let fh = self.font.height;
        let ghost w = width as int;
        let ghost len = canvas@.len() as int;
        let ghost q = self.picker.search.query_view();
        let ghost c = self.picker.search.cursor_view() as int;
        proof {
            self.picker.search.lemma_wf();
        }
        fill_background(canvas);
        paint_line(canvas, width, &self.font, 0, self.picker.search.chars(), false);
        self.picker.update();
        let lines = height as usize / fh;
        let shown = if lines <= 1 {
            0
        } else if lines - 1 < self.picker.matches.len() {
            lines - 1
        } else {
            self.picker.matches.len()
        };
        assert(shown == self.shown(height as int));
        let sel = self.picker.selection;
        let mut i: usize = 0;
        while i < shown
            invariant
                self.wf(),
                fw == self.font.width && fh == self.font.height,
                w == width as int,
                len == canvas@.len(),
                q == self.picker.search.query_view(),
                c == self.picker.search.cursor_view() as int,
                sel == self.picker.selection,
                shown == self.shown(height as int),
                shown <= self.picker.matches@.len(),
                i <= shown,
                forall|k: int, x: int, y: int, ch: int|
                    0 <= k < q.len() && has_glyph(q[k]) && 0 <= y < fh && 0 <= x < fw && k * fw + x < w && 0 <= ch < 3
                        && fits(w, k * fw, 0, x, y, len)
                    ==> canvas@[#[trigger] text_pixel(w, fw as int, fh as int, 0, k, x, y, ch)]
                        == shade(self.font.glyphs@[glyph_slot(q[k])]@[y * fw + x], false),
                forall|i2: int, k: int, x: int, y: int, ch: int|
                    0 <= i2 < i && 0 <= k < self.line_of(i2).len() && has_glyph(self.line_of(i2)[k])
                        && 0 <= y < fh && 0 <= x < fw && k * fw + x < w && 0 <= ch < 3
                        && fits(w, k * fw, (i2 + 1) * fh, x, y, len)
                    ==> canvas@[#[trigger] self.match_pixel(w, i2, k, x, y, ch)]
                        == shade(self.font.glyphs@[glyph_slot(self.line_of(i2)[k])]@[y * fw + x], i2 == sel),
                forall|idx: int| 0 <= idx < len && !in_line(w, fw as int, fh as int, 0, q.len() as int, idx)
                        && !(exists|i2: int| 0 <= i2 < i && #[trigger] self.in_match_line(w, i2, idx))
                    ==> #[trigger] canvas@[idx] == 255u8,
            decreases shown - i,
        {
            let ghost before = canvas@;
            let o = self.picker.matches[i].1;
            let text = line_chars(i == sel, self.picker.options[o].as_str());
            assert(text@ == self.line_of(i as int));
            paint_line(canvas, width, &self.font, i + 1, &text, i == sel);
            proof {
                let ii = i as int;
                assert forall|k: int, x: int, y: int, ch: int|
                    0 <= k < q.len() && has_glyph(q[k]) && 0 <= y < fh && 0 <= x < fw && k * fw + x < w && 0 <= ch < 3
                        && fits(w, k * fw, 0, x, y, len)
                    implies canvas@[#[trigger] text_pixel(w, fw as int, fh as int, 0, k, x, y, ch)]
                        == before[text_pixel(w, fw as int, fh as int, 0, k, x, y, ch)] by {
                    let idx = text_pixel(w, fw as int, fh as int, 0, k, x, y, ch);
                    lemma_lines_disjoint(w, fw as int, fh as int, 0, k, x, y, ch, ii + 1, text@.len() as int, idx);
                }
                assert forall|i2: int, k: int, x: int, y: int, ch: int|
                    0 <= i2 < ii + 1 && 0 <= k < self.line_of(i2).len() && has_glyph(self.line_of(i2)[k])
                        && 0 <= y < fh && 0 <= x < fw && k * fw + x < w && 0 <= ch < 3
                        && fits(w, k * fw, (i2 + 1) * fh, x, y, len)
                    implies canvas@[#[trigger] self.match_pixel(w, i2, k, x, y, ch)]
                        == shade(self.font.glyphs@[glyph_slot(self.line_of(i2)[k])]@[y * fw + x], i2 == sel) by {
                    let idx = self.match_pixel(w, i2, k, x, y, ch);
                    if i2 < ii {
                        lemma_lines_disjoint(w, fw as int, fh as int, i2 + 1, k, x, y, ch, ii + 1, text@.len() as int, idx);
                        assert(canvas@[idx] == before[idx]);
                    } else {
                        assert(idx == text_pixel(w, fw as int, fh as int, ii + 1, k, x, y, ch));
                    }
                }
                assert forall|idx: int| 0 <= idx < len && !in_line(w, fw as int, fh as int, 0, q.len() as int, idx)
                        && !(exists|i2: int| 0 <= i2 < ii + 1 && #[trigger] self.in_match_line(w, i2, idx))
                    implies #[trigger] canvas@[idx] == 255u8 by {
                    assert(!self.in_match_line(w, ii, idx));
                    assert(canvas@[idx] == before[idx]);
                    if exists|i2: int| 0 <= i2 < ii && #[trigger] self.in_match_line(w, i2, idx) {
                        let i2 = choose|i2: int| 0 <= i2 < ii && #[trigger] self.in_match_line(w, i2, idx);
                        assert(self.in_match_line(w, i2, idx));
                    }
                }
            }
            i = i + 1;
        }
        let cur = self.picker.search.cursor();
        assert((cur as u128) * (fw as u128) <= 0xffff_ffff_ffff_ffff_u128 * 0xffff_ffff_ffff_ffff_u128) by (nonlinear_arith)
            requires cur <= 0xffff_ffff_ffff_ffff_u128, fw <= 0xffff_ffff_ffff_ffff_u128;
        let left: u128 = cur as u128 * fw as u128;
        if left < width as u128 {
            let bar: Vec<u8> = vec![0u8; fh];
            let ghost before = canvas@;
            paint_glyph(canvas, width, left as usize, 0, &bar, 1, fh, false);
            proof {
                assert forall|i2: int, k: int, x: int, y: int, ch: int|
                    0 <= i2 < shown && 0 <= k < self.line_of(i2).len()
                        && 0 <= y < fh && 0 <= x < fw && k * fw + x < w && 0 <= ch < 3
                    implies !self.in_cursor(w, #[trigger] self.match_pixel(w, i2, k, x, y, ch)) by {
                    let idx = self.match_pixel(w, i2, k, x, y, ch);
                    if self.in_cursor(w, idx) {
                        let (x2, y2, c2) = choose|x2: int, y2: int, c2: int|
                            0 <= y2 < fh && 0 <= x2 < 1 && c * fw + x2 < w && 0 <= c2 < 3
                                && idx == #[trigger] cell_pixel(w, c * fw, 0, x2, y2, c2);
                        assert(0 <= k * fw && fh <= (i2 + 1) * fh && 0 <= c * fw) by (nonlinear_arith)
                            requires 0 <= k, 0 <= i2, fw > 0, fh > 0, 0 <= c;
                        lemma_pixel_injective(w, k * fw, (i2 + 1) * fh, x, y, ch, c * fw, 0, x2, y2, c2);
                    }
                }
            }
        }
    }

    /// Carries out one command.
    pub fn apply(&mut self, cmd: Command)
        requires
            old(self).wf(),
        ensures
            final(self).wf(),
            final(self).state() == step(old(self).state(), old(self).picker.matches_view().len() as int, cmd),
            final(self).picker.matches_view() == old(self).picker.matches_view(),
            final(self).picker.options_view() == old(self).picker.options_view(),
            final(self).font == old(self).font,
            final(self).keep_open == old(self).keep_open,
    {
        proof {
            self.picker.search.lemma_wf();
        }
        match cmd {
            Command::Insert(ch) => self.picker.search.insert(ch),
            Command::CursorToStart => self.picker.search.cursor_to_start(),
            Command::CursorToEnd => self.picker.search.cursor_to_end(),
            Command::CursorLeft => self.picker.search.cursor_left(),
            Command::CursorRight => self.picker.search.cursor_right(),
            Command::DeleteWord => self.picker.search.delete_word(),
            Command::DeleteTillStart => self.picker.search.delete_till_start(),
            Command::DeleteTillEnd => self.picker.search.delete_till_end(),
            Command::Delete => self.picker.search.delete(),
            Command::Next => self.picker.next(),
            Command::Prev => self.picker.prev(),
            Command::Confirm => self.close(),
            Command::Close => self.close(),
        }
    }

    /// Handles one event. Returns the line to output when the event
    /// confirms the selection.
    pub fn handle_events(&mut self, event: Event) -> (r: Option<String>)
        requires
            old(self).wf(),
        ensures
            final(self).wf(),
            final(self).state() == run(old(self).state(), old(self).picker.matches_view().len() as int, bindings(event, old(self).keep_open)),
            final(self).picker.matches_view() == old(self).picker.matches_view(),
            final(self).picker.options_view() == old(self).picker.options_view(),
            r.is_some() == bindings(event, old(self).keep_open).contains(Command::Confirm),
            r matches Some(s) ==> s@ == final(self).confirmed(),
    {
        let cmds = commands(&event, self.keep_open);
        let ghost s0 = self.state();
        let ghost n = self.picker.matches_view().len() as int;
        let mut i: usize = 0;
        let mut confirm = false;
        while i < cmds.len()
            invariant
                self.wf(),
                i <= cmds@.len(),
                cmds@ == bindings(event, self.keep_open),
                self.state() == run(s0, n, cmds@.take(i as int)),
                self.picker.matches_view().len() == n,
                self.picker.matches_view() == old(self).picker.matches_view(),
                self.picker.options_view() == old(self).picker.options_view(),
                self.keep_open == old(self).keep_open,
                confirm == cmds@.take(i as int).contains(Command::Confirm),
            decreases cmds@.len() - i,
        {
            let cmd = cmds[i];
            self.apply(cmd);
            proof {
                assert(cmds@.take(i + 1).drop_last() =~= cmds@.take(i as int));
                assert(cmds@.take(i + 1) =~= cmds@.take(i as int).push(cmd));
                if cmd == Command::Confirm {
                    assert(cmds@.take(i + 1)[i as int] == Command::Confirm);
                }
                if cmds@.take(i + 1).contains(Command::Confirm) && cmd != Command::Confirm {
                    let k = choose|k: int| 0 <= k < i + 1 && #[trigger] cmds@.take(i + 1)[k] == Command::Confirm;
                    assert(cmds@.take(i as int)[k] == Command::Confirm);
                }
            }
            if cmd == Command::Confirm {
                confirm = true;
            }
            i = i + 1;
        }
        assert(cmds@.take(cmds@.len() as int) =~= cmds@);
        if confirm {
            let line = match self.picker.selection() {
                Some(s) => copy_str(s),
                None => copy_str(self.picker.query()),
            };
            Some(line)
        } else {
            None
        }
    }
}

/// The commands of an event, as `bindings` lists them.
pub fn commands(ev: &Event, keep_open: bool) -> (r: Vec<Command>)
    ensures
        r@ == bindings(*ev, keep_open),
{
    let mut r: Vec<Command> = Vec::new();
    match ev {
        Event::Focused(f) => {
            if !*f && !keep_open {
                r.push(Command::Close);
            }
            assert(r@ =~= bindings(*ev, keep_open));
        },
        Event::Keyboard { modifiers, keycode, utf8 } => {
            let escape = match keycode {
                Keycode::Escape => true,
                Keycode::Letter(c) => *c == 'c' && modifiers.ctrl,
                _ => false,
            };
            if escape {
                r.push(Command::Close);
                assert(r@ =~= bindings(*ev, keep_open));
                return r;
            }
            match typed(modifiers, utf8) {
                Some(c) => r.push(Command::Insert(c)),
                None => {},
            }
            let ghost r1 = r@;
            if modifiers.ctrl {
                match ctrl_binding(keycode) {
                    Some(c) => r.push(c),
                    None => {},
                }
            }
            let ghost r2 = r@;
            match key_binding(keycode) {
                Some(c) => r.push(c),
                None => {},
            }
            assert(r2 =~= r1 + (if modifiers.ctrl { opt_seq(ctrl_command(*keycode)) } else { Seq::empty() }));
            assert(r@ =~= r2 + opt_seq(key_command(*keycode)));
        },
    }
    r
}

fn typed(modifiers: &Modifiers, utf8: &Option<String>) -> (r: Option<char>)
    ensures
        r == typed_char(*modifiers, *utf8),
{
    match utf8 {
        Some(s) => {
            let t = s.as_str();
            let n = t.unicode_len();
            if n > 0 && !modifiers.ctrl && !modifiers.alt && !modifiers.logo {
                let c = t.get_char(n - 1);
                if ' ' <= c && c <= '~' {
                    return Some(c);
                }
            }
            None
        },
        None => None,
    }
}

fn ctrl_binding(k: &Keycode) -> (r: Option<Command>)
    ensures
        r == ctrl_command(*k),
{
    match k {
        Keycode::Letter(c) => {
            let c = *c;
            if c == 'n' {
                Some(Command::Next)
            } else if c == 'p' {
                Some(Command::Prev)
            } else if c == 'a' {
                Some(Command::CursorToStart)
            } else if c == 'e' {
                Some(Command::CursorToEnd)
            } else if c == 'w' {
                Some(Command::DeleteWord)
            } else if c == 'u' {
                Some(Command::DeleteTillStart)
            } else if c == 'k' {
                Some(Command::DeleteTillEnd)
            } else if c == 'b' {
                Some(Command::CursorLeft)
            } else if c == 'f' {
                Some(Command::CursorRight)
            } else {
                None
            }
        },
        _ => None,
    }
}

fn key_binding(k: &Keycode) -> (r: Option<Command>)
    ensures
        r == key_command(*k),
{
    match k {
        Keycode::Return => Some(Command::Confirm),
        Keycode::BackSpace => Some(Command::Delete),
        Keycode::Up => Some(Command::Prev),
        Keycode::Down => Some(Command::Next),
        Keycode::Left => Some(Command::CursorLeft),
        Keycode::Right => Some(Command::CursorRight),
        _ => None,
    }
}

/// The characters of match line text for option `s`.
fn line_chars(selected: bool, s: &str) -> (r: Vec<char>)
    ensures
        r@ == match_line(selected, s@),
{
    let mut r: Vec<char> = Vec::new();
    r.push(if selected { '>' } else { ' ' });
    r.push(' ');
    let n = s.unicode_len();
    let mut i: usize = 0;
    while i < n
        invariant
            n == s@.len(),
            i <= n,
            r@ == seq![if selected { '>' } else { ' ' }, ' '] + s@.subrange(0, i as int),
        decreases n - i,
    {
        r.push(s.get_char(i));
        i = i + 1;
        assert(r@ =~= seq![if selected { '>' } else { ' ' }, ' '] + s@.subrange(0, i as int));
    }
    assert(s@.subrange(0, n as int) =~= s@);
    r
}

/// An owned copy of `s`.
fn copy_str(s: &str) -> (r: String)
    ensures
        r@ == s@,
{
    String::from_str(s)
}

} // verus!
