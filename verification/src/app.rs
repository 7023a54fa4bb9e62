//! What the viewer shows, and what the keys and buttons do with it.
//!
//! Pixels, clocks, files and dialogs are not known here. What comes from them is handed in, and
//! what they are to do is handed out.

use crate::bookmarks;
use crate::logstore::{LogStore, SearchRequest, Store};
use crate::marks;
use crate::marks::MarkNow;
use crate::outside;
use crate::outside::RegexFault;
use crate::search;
use regex::Regex;
use vstd::prelude::*;
use vstd::string::*;

pub use crate::marks::{AnchorState, Mark};

verus! {

/// Where the view goes once a search has ended.
#[derive(Clone, Copy, Debug, PartialEq, Eq, Structural)]
pub enum OnSearchDone {
    /// To the first hit: who types a word wants to find it.
    GotoFirstMatch,
    /// Nowhere: who looks a word up while reading does not want to be taken away.
    StayAtView,
}

/// The value of a text that may be missing.
pub open spec fn text_of(t: Option<String>) -> Option<Seq<char>> {
    match t {
        Some(s) => Some(s@),
        None => None,
    }
}

/// The viewer.
pub struct LogViewApp {
    pub store: Option<LogStore>,
    pub query: String,
    pub case_sensitive: bool,
    pub use_regex: bool,
    /// The regular expression by which hits are picked out in a line.
    pub highlight_regex: Option<Regex>,
    pub only_matched: bool,
    /// The view stays at the end of the file.
    pub follow: bool,
    pub wrap: bool,
    /// The theme: dark or light, or that of the system.
    pub dark: Option<bool>,
    pub error: Option<String>,
    /// The row to go to: a hit if only matching lines are shown, else a line.
    pub pending_jump: Option<usize>,
    pub pending_after_search: Option<OnSearchDone>,
    /// The hit that was gone to last.
    pub match_cursor: usize,
    /// The line at the top of the view.
    pub top_line: usize,
    pub search_has_focus: bool,
    pub focus_search: bool,
    pub jump_to_end: bool,
    /// The marks, in the order of their offsets.
    pub marks: Vec<Mark>,
    /// Where the marks are kept. Nowhere, if they could not be written there.
    pub marks_path: Option<String>,
    pub marks_dirty: bool,
    pub marks_warning: Option<String>,
    pub show_marks: bool,
    /// The mark whose note is being edited, by its offset.
    pub editing_note: Option<u64>,
    pub note_buf: String,
    /// The current line: the one that was gone to last.
    pub cursor_line: Option<usize>,
    /// The line of the mark that was jumped to last.
    pub focused_mark: Option<usize>,
    /// How many rows the view holds.
    pub visible_rows: usize,
    /// What is to be shown for a moment.
    pub flash: Option<String>,
}

/// The value of a [`LogViewApp`], without the compiled regular expression.
pub struct Session {
    pub store: Option<Store>,
    pub query: Seq<char>,
    pub case_sensitive: bool,
    pub use_regex: bool,
    pub only_matched: bool,
    pub follow: bool,
    pub wrap: bool,
    pub dark: Option<bool>,
    pub error: Option<Seq<char>>,
    pub pending_jump: Option<usize>,
    pub pending_after_search: Option<OnSearchDone>,
    pub match_cursor: usize,
    pub top_line: usize,
    pub search_has_focus: bool,
    pub focus_search: bool,
    pub jump_to_end: bool,
    pub marks: Seq<MarkNow>,
    pub marks_path: Option<Seq<char>>,
    pub marks_dirty: bool,
    pub marks_warning: Option<Seq<char>>,
    pub show_marks: bool,
    pub editing_note: Option<u64>,
    pub note_buf: Seq<char>,
    pub cursor_line: Option<usize>,
    pub focused_mark: Option<usize>,
    pub visible_rows: usize,
    pub flash: Option<Seq<char>>,
}

impl View for LogViewApp {
    type V = Session;

    open spec fn view(&self) -> Session {
        Session {
            store: match self.store {
                Some(s) => Some(s@),
                None => None,
            },
            query: self.query@,
            case_sensitive: self.case_sensitive,
            use_regex: self.use_regex,
            only_matched: self.only_matched,
            follow: self.follow,
            wrap: self.wrap,
            dark: self.dark,
            error: text_of(self.error),
            pending_jump: self.pending_jump,
            pending_after_search: self.pending_after_search,
            match_cursor: self.match_cursor,
            top_line: self.top_line,
            search_has_focus: self.search_has_focus,
            focus_search: self.focus_search,
            jump_to_end: self.jump_to_end,
            marks: marks::marks_now(self.marks@),
            marks_path: text_of(self.marks_path),
            marks_dirty: self.marks_dirty,
            marks_warning: text_of(self.marks_warning),
            show_marks: self.show_marks,
            editing_note: self.editing_note,
            note_buf: self.note_buf@,
            cursor_line: self.cursor_line,
            focused_mark: self.focused_mark,
            visible_rows: self.visible_rows,
            flash: text_of(self.flash),
        }
    }
}

/// The first place at or after `i` whose number is at least `bound`, or the end.
pub open spec fn first_at_least(s: Seq<u32>, bound: u32, i: int) -> int
    decreases s.len() - i,
{
    if 0 <= i < s.len() && s[i] < bound {
        first_at_least(s, bound, i + 1)
    } else {
        i
    }
}

/// The first place at or after `i` that holds `v`, or the end.
pub open spec fn place_of(s: Seq<u32>, v: u32, i: int) -> int
    decreases s.len() - i,
{
    if 0 <= i < s.len() && s[i] != v {
        place_of(s, v, i + 1)
    } else {
        i
    }
}

/// `v`, or the nearest number from `lo` to `hi`.
pub open spec fn clamped(v: int, lo: int, hi: int) -> int {
    if v < lo {
        lo
    } else if v > hi {
        hi
    } else {
        v
    }
}

impl Session {
    /// The viewer before anything was done.
    pub open spec fn initial() -> Session {
        Session {
            store: None,
            query: Seq::empty(),
            case_sensitive: false,
            use_regex: false,
            only_matched: false,
            follow: false,
            wrap: false,
            dark: None,
            error: None,
            pending_jump: None,
            pending_after_search: None,
            match_cursor: 0,
            top_line: 0,
            search_has_focus: false,
            focus_search: false,
            jump_to_end: false,
            marks: Seq::empty(),
            marks_path: None,
            marks_dirty: false,
            marks_warning: None,
            show_marks: false,
            editing_note: None,
            note_buf: Seq::empty(),
            cursor_line: None,
            focused_mark: None,
            visible_rows: 1,
            flash: None,
        }
    }

    /// The store is in order, and so are the marks: by their offsets, none of which occurs
    /// twice.
    pub open spec fn wf(self) -> bool {
        &&& self.store matches Some(s) ==> s.wf()
        &&& bookmarks::rising(marks::offsets_now(self.marks))
    }

    /// What is searched for.
    pub open spec fn request(self) -> search::Request {
        search::Request {
            query: self.query,
            case_sensitive: self.case_sensitive,
            use_regex: self.use_regex,
        }
    }

    /// The lines that were found.
    pub open spec fn matches(self) -> Seq<u32> {
        match self.store {
            Some(s) => s.matches,
            None => Seq::empty(),
        }
    }

    /// `t` is shown for a moment.
    pub open spec fn flashing(self, t: Seq<char>) -> Session {
        Session { flash: Some(t), ..self }
    }

    /// A search is started.
    pub open spec fn searching_for(self, on_done: OnSearchDone) -> Session {
        let s = match self.store {
            Some(store) => Session {
                store: Some(store.with_request(self.request())),
                pending_after_search: if self.query.len() > 0 {
                    Some(on_done)
                } else {
                    self.pending_after_search
                },
                ..self
            },
            None => self,
        };
        if on_done is GotoFirstMatch {
            Session { match_cursor: 0, ..s }
        } else {
            s
        }
    }

    /// The hit `delta` hits further on is gone to, but none beyond the first or the last.
    pub open spec fn at_match(self, delta: int) -> Session {
        let n = self.matches().len();
        if n == 0 {
            self
        } else {
            let cur = clamped(self.match_cursor + delta, 0, n - 1) as usize;
            let line = self.matches()[cur as int] as usize;
            Session {
                follow: false,
                focused_mark: None,
                match_cursor: cur,
                cursor_line: Some(line),
                pending_jump: Some(
                    if self.only_matched {
                        cur
                    } else {
                        line
                    },
                ),
                ..self
            }
        }
    }

    /// The current hit is the first one that does not lie above the view, or else the last.
    pub open spec fn at_match_in_view(self) -> Session {
        let n = self.matches().len();
        if n == 0 {
            self
        } else {
            let i = first_at_least(self.matches(), self.top_line as u32, 0);
            Session {
                match_cursor: (if i < n {
                    i
                } else {
                    n - 1
                }) as usize,
                ..self
            }
        }
    }

    /// What follows from the end of a search, if one has ended.
    pub open spec fn after_search(self) -> Session {
        if self.store matches Some(s) && s.searching {
            self
        } else {
            let s = Session { pending_after_search: None, ..self };
            match self.pending_after_search {
                Some(OnSearchDone::GotoFirstMatch) => s.at_match(0),
                Some(OnSearchDone::StayAtView) => s.at_match_in_view(),
                None => self,
            }
        }
    }

    /// A row is gone to.
    pub open spec fn at_row(self, row: usize) -> Session {
        Session { follow: false, focused_mark: None, pending_jump: Some(row), ..self }
    }

    /// The line that a key acts on: the current line if it is in view, or else the line at the
    /// top.
    pub open spec fn mark_target(self) -> Option<usize> {
        let rows = if self.visible_rows > 1 {
            self.visible_rows
        } else {
            1
        };
        if self.store is None {
            None
        } else {
            match self.cursor_line {
                Some(line) => if self.top_line <= line < self.top_line + rows {
                    Some(line)
                } else {
                    Some(self.top_line)
                },
                None => Some(self.top_line),
            }
        }
    }
}

impl Default for LogViewApp {
    fn default() -> (r: LogViewApp)
        ensures
            r@ == Session::initial(),
            r.highlight_regex is None,
            r@.wf(),
    {
        let r = LogViewApp {
            store: None,
            query: String::new(),
            case_sensitive: false,
            use_regex: false,
            highlight_regex: None,
            only_matched: false,
            follow: false,
            wrap: false,
            dark: None,
            error: None,
            pending_jump: None,
            pending_after_search: None,
            match_cursor: 0,
            top_line: 0,
            search_has_focus: false,
            focus_search: false,
            jump_to_end: false,
            marks: Vec::new(),
            marks_path: None,
            marks_dirty: false,
            marks_warning: None,
            show_marks: false,
            editing_note: None,
            note_buf: String::new(),
            cursor_line: None,
            focused_mark: None,
            visible_rows: 1,
            flash: None,
        };
        assert(r@.marks =~= Seq::empty());
        assert(r@.query =~= Seq::empty());
        assert(r@.note_buf =~= Seq::empty());
        r
    }
}

impl LogViewApp {
    /// The viewer before anything was done. It does not follow the end of the file.
    pub fn new() -> (r: LogViewApp)
        ensures
            r@ == Session::initial(),
            r.highlight_regex is None,
            r@.wf(),
    {
        LogViewApp::default()
    }

    /// What is searched for.
    pub fn search_request(&self) -> (r: SearchRequest)
        ensures
            r@ == self@.request(),
    {
        SearchRequest::new(self.query.as_str(), self.case_sensitive, self.use_regex)
    }

    /// The regular expression by which hits are picked out, if it is what the query asks for.
    pub open spec fn highlights_query(self) -> bool {
        self.highlight_regex matches Some(re) ==> self.use_regex && self.query@.len() > 0
            && outside::pattern_of(re) == search::request_pattern(self@.request())
            && outside::syntax_error(outside::pattern_of(re)) is None
    }

    /// The regular expression to pick hits out by: the one that compiled, if any.
    pub fn highlight_of(compiled: Result<Regex, RegexFault>) -> (r: Option<Regex>)
        ensures
            match compiled {
                Ok(re) => r == Some(re),
                Err(_) => r is None,
            },
    {
        match compiled {
            Ok(re) => Some(re),
            Err(_) => None,
        }
    }

    /// Compiles the regular expression to pick hits out by. There is none for a plain search.
    /// There is none either for a pattern that is not written as a regular expression; whether
    /// the compiled form of another is too large is not said here.
    pub fn compiled_highlight_regex(&self) -> (r: Option<Regex>)
        ensures
            !self.use_regex || self.query@.len() == 0 ==> r is None,
            outside::syntax_error(search::request_pattern(self@.request())) is Some ==> r is None,
            r matches Some(re) ==> outside::pattern_of(re) == search::request_pattern(
                self@.request(),
            ),
    {
        if !self.use_regex || self.query.as_str().is_empty() {
            return None;
        }
        let pattern = self.search_request().pattern();
        LogViewApp::highlight_of(outside::compile_regex(pattern.as_str()))
    }

    /// Hands the search to the store, and tells whether there is one to run.
    fn ask_store(&mut self) -> (started: bool)
        ensures
            final(self)@ == (match old(self)@.store {
                Some(s) => Session { store: Some(s.with_request(old(self)@.request())), ..old(self)@ },
                None => old(self)@,
            }),
            final(self).highlight_regex == old(self).highlight_regex,
            started == (old(self)@.store is Some && old(self)@.query.len() > 0),
    {
        let req = self.search_request();
        match self.store.take() {
            Some(mut s) => {
                let started = s.start_search(req);
                self.store = Some(s);
                started
            },
            None => false,
        }
    }

    /// Starts the search, and notes where the view goes when it has ended.
    pub fn run_search(&mut self, on_done: OnSearchDone)
        ensures
            final(self)@ == old(self)@.searching_for(on_done),
            final(self).highlights_query(),
            old(self)@.wf() ==> final(self)@.wf(),
    {
        self.highlight_regex = self.compiled_highlight_regex();
        let started = self.ask_store();
        if started {
            self.pending_after_search = Some(on_done);
        }
        if on_done == OnSearchDone::GotoFirstMatch {
            self.match_cursor = 0;
        }
    }

    /// Whether a search is under way.
    fn is_busy(&self) -> (r: bool)
        ensures
            r == (self@.store matches Some(s) && s.searching),
    {
        match &self.store {
            Some(s) => s.is_searching(),
            None => false,
        }
    }

    /// Sends the view where it is to go, if a search has ended.
    pub fn apply_search_outcome(&mut self)
        ensures
            final(self)@ == old(self)@.after_search(),
            final(self).highlight_regex == old(self).highlight_regex,
            old(self)@.wf() ==> final(self)@.wf(),
    {
        if self.is_busy() {
            return;
        }
        match self.pending_after_search {
            Some(OnSearchDone::GotoFirstMatch) => {
                self.pending_after_search = None;
                self.goto_match(0);
            },
            Some(OnSearchDone::StayAtView) => {
                self.pending_after_search = None;
                self.cursor_from_view();
            },
            None => {},
        }
    }

    /// Makes the first hit that does not lie above the view the current one. The view stays
    /// where it is, and the next hit is the next one below.
    pub fn cursor_from_view(&mut self)
        ensures
            final(self)@ == old(self)@.at_match_in_view(),
            final(self).highlight_regex == old(self).highlight_regex,
            old(self)@.wf() ==> final(self)@.wf(),
    {
        if let Some(s) = &self.store {
            let matches = s.matches();
            let n: usize = matches.len();
            if n == 0 {
                return;
            }
            let top: u32 = #[verifier::truncate]
            (self.top_line as u32);
            let mut i: usize = 0;
            while i < n && matches[i] < top
                invariant
                    n == matches@.len(),
                    i <= n,
                    first_at_least(matches@, top, 0) == first_at_least(matches@, top, i as int),
                decreases n - i,
            {
                i += 1;
            }
            self.match_cursor = if i < n {
                i
            } else {
                n - 1
            };
        }
    }

    /// The line of the current hit.
    pub fn current_match_line(&self) -> (r: Option<usize>)
        ensures
            r == (if self.match_cursor < self@.matches().len() {
                Some(self@.matches()[self.match_cursor as int] as usize)
            } else {
                None
            }),
    {
        match &self.store {
            Some(s) => {
                let matches = s.matches();
                if self.match_cursor < matches.len() {
                    Some(matches[self.match_cursor] as usize)
                } else {
                    None
                }
            },
            None => None,
        }
    }

    /// Searches for a word in the line that is being read. The view stays where it is.
    pub fn search_for(&mut self, word: String)
        ensures
            word@.len() == 0 ==> final(self)@ == old(self)@ && final(self).highlight_regex == old(
                self,
            ).highlight_regex,
            word@.len() > 0 ==> final(self)@ == (Session {
                query: word@,
                ..old(self)@
            }).searching_for(OnSearchDone::StayAtView) && final(self).highlights_query(),
            old(self)@.wf() ==> final(self)@.wf(),
    {
        if word.as_str().is_empty() {
            return;
        }
        self.query = word;
        self.run_search(OnSearchDone::StayAtView);
    }

    /// Goes on by `delta` hits, but not beyond the first or the last. The view no longer
    /// follows the end of the file.
    pub fn goto_match(&mut self, delta: isize)
        ensures
            final(self)@ == old(self)@.at_match(delta as int),
            final(self).highlight_regex == old(self).highlight_regex,
            old(self)@.wf() ==> final(self)@.wf(),
    {
        if let Some(s) = &self.store {
            let matches = s.matches();
            let n: usize = matches.len();
            if n == 0 {
                return;
            }
            let wanted: i128 = self.match_cursor as i128 + delta as i128;
            let cur: usize = if wanted < 0 {
                0
            } else if wanted > (n - 1) as i128 {
                n - 1
            } else {
                wanted as usize
            };
            let line: usize = matches[cur] as usize;
            self.follow = false;
            self.focused_mark = None;
            self.match_cursor = cur;
            self.cursor_line = Some(line);
            self.pending_jump = Some(
                if self.only_matched {
                    cur
                } else {
                    line
                },
            );
        }
    }

    /// Goes to a row. The view no longer follows the end of the file.
    pub fn jump_to_line(&mut self, idx: usize)
        ensures
            final(self)@ == old(self)@.at_row(idx),
            final(self).highlight_regex == old(self).highlight_regex,
            old(self)@.wf() ==> final(self)@.wf(),
    {
        self.follow = false;
        self.focused_mark = None;
        self.pending_jump = Some(idx);
    }

    /// The line that a key acts on. The current line counts only while it is in view: who has
    /// scrolled away from it does not expect it to be marked.
    pub fn mark_target(&self) -> (r: Option<usize>)
        ensures
            r == self@.mark_target(),
    {
        if self.store.is_none() {
            return None;
        }
        let top: usize = self.top_line;
        let rows: usize = if self.visible_rows > 1 {
            self.visible_rows
        } else {
            1
        };
        if let Some(line) = self.cursor_line {
            if line >= top && line - top < rows {
                return Some(line);
            }
        }
        Some(top)
    }
}

} // verus!
