//! What the keys do.

use crate::app::{LogViewApp, Session};
use vstd::prelude::*;
use vstd::string::*;

verus! {

/// The keys that were pressed.
#[derive(Clone, Copy, Debug, PartialEq, Eq, Structural)]
pub struct Keys {
    /// Command and `O`.
    pub open: bool,
    /// Command and `B`.
    pub panel: bool,
    /// Command and `F`.
    pub find: bool,
    pub slash: bool,
    pub escape: bool,
    pub n: bool,
    pub g: bool,
    pub b: bool,
    pub f2: bool,
    /// Shift was held down.
    pub shift: bool,
}

/// No key.
pub open spec fn no_keys() -> Keys {
    Keys {
        open: false,
        panel: false,
        find: false,
        slash: false,
        escape: false,
        n: false,
        g: false,
        b: false,
        f2: false,
        shift: false,
    }
}

impl Default for Keys {
    fn default() -> (r: Keys)
        ensures
            r == no_keys(),
    {
        Keys {
            open: false,
            panel: false,
            find: false,
            slash: false,
            escape: false,
            n: false,
            g: false,
            b: false,
            f2: false,
            shift: false,
        }
    }
}

impl Session {
    /// Nothing is searched for.
    pub open spec fn without_query(self) -> Session {
        Session {
            query: Seq::empty(),
            store: match self.store {
                Some(s) => Some(s.without_search()),
                None => None,
            },
            ..self
        }
    }

    /// After `n`: the next hit, or with shift the one before.
    pub open spec fn after_n(self, keys: Keys) -> Session {
        if keys.n {
            self.at_match(
                if keys.shift {
                    -1
                } else {
                    1
                },
            )
        } else {
            self
        }
    }

    /// After `g`: the beginning, or with shift the end.
    pub open spec fn after_g(self, keys: Keys) -> Session {
        if keys.g {
            if keys.shift {
                Session { jump_to_end: true, focused_mark: None, ..self }
            } else {
                self.at_row(0)
            }
        } else {
            self
        }
    }

    /// After `b`: the current line is marked, or no longer.
    pub open spec fn after_b(self, keys: Keys, data: Seq<u8>, now: u64) -> Session {
        if keys.b {
            self.toggled(data, now)
        } else {
            self
        }
    }

    /// After `F2`: the next mark, or with shift the one before.
    pub open spec fn after_f2(self, keys: Keys) -> Session {
        if keys.f2 {
            self.at_next_mark(!keys.shift)
        } else {
            self
        }
    }

    /// After command and `B`: the marks are shown, or no longer.
    pub open spec fn after_panel_key(self, keys: Keys) -> Session {
        if keys.panel {
            Session { show_marks: !self.show_marks, ..self }
        } else {
            self
        }
    }

    /// The search box is asked for.
    pub open spec fn wants_search_box(self, keys: Keys) -> bool {
        keys.find || (!self.search_has_focus && keys.slash)
    }

    /// Plain letters are keys.
    pub open spec fn takes_letters(self, keys: Keys) -> bool {
        self.editing_note is None && !keys.escape && !self.wants_search_box(keys)
            && !self.search_has_focus
    }

    /// If `b` is among the letters, the line that it acts on can be decoded.
    #[verifier::opaque]
    pub open spec fn letters_read(self, keys: Keys, data: Seq<u8>) -> bool {
        keys.b ==> self.after_n(keys).after_g(keys).target_reads(data)
    }

    /// After the keys. While a note is edited they are part of it, but for the one that ends
    /// the editing; plain letters are keys only while nothing is typed into the search box.
    pub open spec fn after_keys(self, keys: Keys, data: Seq<u8>, now: u64) -> Session {
        let s = self.after_panel_key(keys);
        if self.editing_note is Some {
            if keys.escape {
                Session { editing_note: None, note_buf: Seq::empty(), ..self }
            } else {
                self
            }
        } else if keys.escape {
            Session { search_has_focus: false, ..s.without_query() }
        } else if self.wants_search_box(keys) {
            Session { focus_search: true, ..s }
        } else if self.search_has_focus {
            s
        } else {
            s.after_n(keys).after_g(keys).after_b(keys, data, now).after_f2(keys)
        }
    }
}

impl LogViewApp {
    /// Whether the keys ask for a file to be opened.
    pub fn wants_open_dialog(&self, keys: Keys) -> (r: bool)
        ensures
            r == (keys.open && self@.editing_note is None),
    {
        keys.open && self.editing_note.is_none()
    }

    /// Drops what is searched for.
    pub fn clear_query(&mut self)
        ensures
            final(self)@ == old(self)@.without_query(),
            final(self).highlight_regex == old(self).highlight_regex,
            old(self)@.wf() ==> final(self)@.wf(),
    {
        self.query = String::new();
        assert(self@.query =~= Seq::empty());
        match self.store.take() {
            Some(mut s) => {
                s.clear_search();
                self.store = Some(s);
            },
            None => {},
        }
    }

    fn press_n(&mut self, keys: Keys)
        ensures
            final(self)@ == old(self)@.after_n(keys),
            final(self).highlight_regex == old(self).highlight_regex,
            old(self)@.wf() ==> final(self)@.wf(),
    {
        if keys.n {
            if keys.shift {
                self.goto_match(-1);
            } else {
                self.goto_match(1);
            }
        }
    }

    fn press_g(&mut self, keys: Keys)
        ensures
            final(self)@ == old(self)@.after_g(keys),
            final(self).highlight_regex == old(self).highlight_regex,
            old(self)@.wf() ==> final(self)@.wf(),
    {
        if keys.g {
            if keys.shift {
                self.jump_to_end = true;
                self.focused_mark = None;
            } else {
                self.jump_to_line(0);
            }
        }
    }

    fn press_panel_key(&mut self, keys: Keys)
        ensures
            final(self)@ == old(self)@.after_panel_key(keys),
            final(self).highlight_regex == old(self).highlight_regex,
            final(self).search_has_focus == old(self).search_has_focus,
            old(self)@.wf() ==> final(self)@.wf(),
    {
        if keys.panel {
            self.show_marks = !self.show_marks;
        }
    }

    fn press_b(&mut self, keys: Keys, data: &[u8], now: u64)
        requires
            old(self)@.wf(),
            keys.b ==> old(self)@.target_reads(data@),
        ensures
            final(self)@ == old(self)@.after_b(keys, data@, now),
            final(self).highlight_regex == old(self).highlight_regex,
            final(self)@.wf(),
    {
        if keys.b {
            self.toggle_mark(data, now);
        }
    }

    fn press_f2(&mut self, keys: Keys)
        requires
            old(self)@.wf(),
        ensures
            final(self)@ == old(self)@.after_f2(keys),
            final(self).highlight_regex == old(self).highlight_regex,
            final(self)@.wf(),
    {
        if keys.f2 {
            if keys.shift {
                self.goto_mark(-1);
            } else {
                self.goto_mark(1);
            }
        }
    }

    /// What the plain letters do.
    fn press_letters(&mut self, keys: Keys, data: &[u8], now: u64)
        requires
            old(self)@.wf(),
            old(self)@.letters_read(keys, data@),
        ensures
            final(self)@ == old(self)@.after_n(keys).after_g(keys).after_b(
                keys,
                data@,
                now,
            ).after_f2(keys),
            final(self).highlight_regex == old(self).highlight_regex,
            final(self)@.wf(),
    {
        reveal(Session::letters_read);
        self.press_n(keys);
        self.press_g(keys);
        self.press_b(keys, data, now);
        self.press_f2(keys);
    }

    /// What the keys do, at the time `now`. It comes back whether the search box is to give up
    /// the keyboard. The key that opens a file is dealt with before.
    pub fn handle_shortcuts(&mut self, keys: Keys, data: &[u8], now: u64) -> (surrender: bool)
        requires
            old(self)@.wf(),
            old(self)@.takes_letters(keys) ==> old(self)@.after_panel_key(keys).letters_read(
                keys,
                data@,
            ),
        ensures
            final(self)@ == old(self)@.after_keys(keys, data@, now),
            final(self).highlight_regex == old(self).highlight_regex,
            final(self)@.wf(),
            surrender == (old(self)@.editing_note is None && keys.escape),
    {
        if self.editing_note.is_some() {
            if keys.escape {
                self.editing_note = None;
                self.note_buf = String::new();
                assert(self@.note_buf =~= Seq::empty());
            }
            return false;
        }
        let wants_box: bool = keys.find || (!self.search_has_focus && keys.slash);
        self.press_panel_key(keys);
        if keys.escape {
            self.clear_query();
            self.search_has_focus = false;
            return true;
        }
        if wants_box {
            self.focus_search = true;
            return false;
        }
        if self.search_has_focus {
            return false;
        }
        self.press_letters(keys, data, now);
        false
    }
}

} // verus!
