//! The search overlay over the active pane: its options, the pattern they
//! give, and what a search does with the match the terminal found.

use vstd::prelude::*;

use crate::text::{append_chars, append_str, chars_of, string_of};

verus! {

/// The characters that have a meaning in a regular expression and are
/// escaped to match themselves.
pub open spec fn is_regex_meta(c: char) -> bool {
    c == '\\' || c == '.' || c == '+' || c == '*' || c == '?' || c == '(' || c == ')' || c == '|'
        || c == '[' || c == ']' || c == '{' || c == '}' || c == '^' || c == '$' || c == '#' || c
        == '&' || c == '-' || c == '~'
}

/// `s` with a backslash before each meta character: a pattern that matches
/// `s` literally.
pub open spec fn regex_escaped(s: Seq<char>) -> Seq<char>
    decreases s.len(),
{
    if s.len() == 0 {
        Seq::empty()
    } else {
        regex_escaped(s.drop_last()) + if is_regex_meta(s.last()) {
            seq!['\\', s.last()]
        } else {
            seq![s.last()]
        }
    }
}

/// Calls `regex::escape`, which puts a backslash before every character of
/// `regex_syntax::is_meta_character` (`\ . + * ? ( ) | [ ] { } ^ $ # & - ~`)
/// and copies every other character.
#[verifier::external_body]
fn regex_escape(s: &str) -> (r: String)
    ensures
        r@ == regex_escaped(s@),
{
    regex::escape(s)
}

/// The pattern searched for: the query itself in regex mode, else the query
/// matched literally; wrapped in word boundaries for whole-word search; and
/// case-insensitive unless case matters.
pub open spec fn search_pattern(query: Seq<char>, case_sensitive: bool, whole_word: bool, regex_mode: bool) -> Seq<char> {
    let body = if regex_mode {
        query
    } else {
        regex_escaped(query)
    };
    let body = if whole_word {
        "\\b(?:"@ + body + ")\\b"@
    } else {
        body
    };
    if case_sensitive {
        body
    } else {
        "(?i)"@ + body
    }
}

/// A grid position as the terminal reports it: a line (negative lines are in
/// the scrollback) and a column.
#[derive(Debug, Clone, Copy, PartialEq, Eq)]
pub struct GridPoint {
    pub line: i32,
    pub col: usize,
}

/// The search overlay: case sensitivity, whole-word and regex search, all
/// off by default.
pub struct SearchState {
    pub open: bool,
    pub query: String,
    pub case_sensitive: bool,
    pub whole_word: bool,
    pub regex_mode: bool,
    focus_field: bool,
    last_match: Option<(GridPoint, GridPoint)>,
    no_match: bool,
}

/// What a [`SearchState`] holds, with the query as characters.
pub struct SearchView {
    pub open: bool,
    pub query: Seq<char>,
    pub case_sensitive: bool,
    pub whole_word: bool,
    pub regex_mode: bool,
    pub wants_focus: bool,
    pub last_found: Option<(GridPoint, GridPoint)>,
    pub found_nothing: bool,
}

impl View for SearchState {
    type V = SearchView;

    closed spec fn view(&self) -> SearchView {
        SearchView {
            open: self.open,
            query: self.query@,
            case_sensitive: self.case_sensitive,
            whole_word: self.whole_word,
            regex_mode: self.regex_mode,
            wants_focus: self.focus_field,
            last_found: self.last_match,
            found_nothing: self.no_match,
        }
    }
}

impl Default for SearchState {
    fn default() -> (r: SearchState)
        ensures
            !r@.open,
            r@.query == Seq::<char>::empty(),
            !r@.case_sensitive && !r@.whole_word && !r@.regex_mode,
            !r@.wants_focus,
            r@.last_found is None,
            !r@.found_nothing,
    {
        SearchState {
            open: false,
            query: String::new(),
            case_sensitive: false,
            whole_word: false,
            regex_mode: false,
            focus_field: false,
            last_match: None,
            no_match: false,
        }
    }
}

impl SearchState {
    /// Whether the query field should take keyboard focus.
    pub fn focus_pending(&self) -> (r: bool)
        ensures
            r == self@.wants_focus,
    {
        self.focus_field
    }

    /// The query field took the focus.
    pub fn focus_taken(&mut self)
        ensures
            final(self)@ == (SearchView { wants_focus: false, ..old(self)@ }),
    {
        self.focus_field = false;
    }

    /// The last match found, first and last cell.
    pub fn last_match(&self) -> (r: Option<(GridPoint, GridPoint)>)
        ensures
            r == self@.last_found,
    {
        self.last_match
    }

    /// The last search found nothing (or its pattern did not compile).
    pub fn no_match(&self) -> (r: bool)
        ensures
            r == self@.found_nothing,
    {
        self.no_match
    }

    /// Show the overlay and put the focus in its query field.
    pub fn open(&mut self)
        ensures
            final(self)@ == (SearchView { open: true, wants_focus: true, found_nothing: false, ..old(self)@ }),
    {
        self.open = true;
        self.focus_field = true;
        self.no_match = false;
    }

    /// Hide the overlay and forget the last match; the caller clears the
    /// terminal's selection.
    pub fn close(&mut self)
        ensures
            final(self)@ == (SearchView { open: false, last_found: None, ..old(self)@ }),
    {
        self.open = false;
        self.last_match = None;
    }

    /// The regular expression handed to the terminal for the current query
    /// and options. An explicit `(?i)` keeps the search case-insensitive when
    /// case does not matter, whatever the letters of the query.
    pub fn pattern(&self) -> (r: String)
        ensures
            r@ == search_pattern(self@.query, self@.case_sensitive, self@.whole_word, self@.regex_mode),
    {
        let body: Vec<char> = if self.regex_mode {
            chars_of(self.query.as_str())
        } else {
            let escaped = regex_escape(self.query.as_str());
            chars_of(escaped.as_str())
        };
        let mut out: Vec<char> = Vec::new();
        if !self.case_sensitive {
            append_str(&mut out, "(?i)");
        }
        if self.whole_word {
            append_str(&mut out, "\\b(?:");
            append_chars(&mut out, &body);
            append_str(&mut out, ")\\b");
        } else {
            append_chars(&mut out, &body);
        }
        proof {
            let b = if self.regex_mode {
                self.query@
            } else {
                regex_escaped(self.query@)
            };
            assert(body@ == b);
            if self.whole_word {
                if self.case_sensitive {
                    assert(out@ =~= "\\b(?:"@ + b + ")\\b"@);
                } else {
                    assert(out@ =~= "(?i)"@ + ("\\b(?:"@ + b + ")\\b"@));
                }
            }
        }
        string_of(&out)
    }

    /// Start a search: with an empty query there is nothing to look for and
    /// no failure to show (`None`); otherwise the pattern to search for.
    pub fn begin_search(&mut self) -> (r: Option<String>)
        ensures
            old(self)@.query.len() == 0 ==> r is None && final(self)@ == (SearchView {
                found_nothing: false,
                ..old(self)@
            }),
            old(self)@.query.len() > 0 ==> (r matches Some(p) && p@ == search_pattern(
                old(self)@.query,
                old(self)@.case_sensitive,
                old(self)@.whole_word,
                old(self)@.regex_mode,
            )) && final(self)@ == old(self)@,
    {
        if self.query.unicode_len() == 0 {
            self.no_match = false;
            None
        } else {
            Some(self.pattern())
        }
    }

    /// The pattern did not compile: while a regex is half typed that means
    /// "no match yet", not an error.
    pub fn pattern_rejected(&mut self)
        ensures
            final(self)@ == (SearchView { found_nothing: true, ..old(self)@ }),
    {
        self.no_match = true;
    }

    /// Record what the terminal's search returned: a match is remembered
    /// (the next search starts beside it) and clears the failure; no match
    /// keeps the last one and shows the failure.
    pub fn record_result(&mut self, found: Option<(GridPoint, GridPoint)>)
        ensures
            final(self)@ == match found {
                Some(m) => SearchView { last_found: Some(m), found_nothing: false, ..old(self)@ },
                None => SearchView { found_nothing: true, ..old(self)@ },
            },
    {
        match found {
            Some(m) => {
                self.last_match = Some(m);
                self.no_match = false;
            },
            None => {
                self.no_match = true;
            },
        }
    }
}

/// How far to scroll the display so that `line` is on screen, when the
/// viewport shows lines `-display_offset ..= screen_lines - 1 - display_offset`:
/// `None` when it already is.
pub open spec fn scroll_to_show(line: int, display_offset: int, screen_lines: int) -> Option<int> {
    let top = -display_offset;
    let bottom = screen_lines - 1 - display_offset;
    if line < top {
        Some(top - line)
    } else if line > bottom {
        Some(bottom - line)
    } else {
        None
    }
}

/// The scroll that brings a match starting on `line` into view.
pub fn scroll_delta(line: i32, display_offset: i32, screen_lines: i32) -> (r: Option<i64>)
    ensures
        match r {
            Some(d) => scroll_to_show(line as int, display_offset as int, screen_lines as int) == Some(d as int),
            None => scroll_to_show(line as int, display_offset as int, screen_lines as int) is None,
        },
{
    let line = line as i64;
    let top = -(display_offset as i64);
    let bottom = screen_lines as i64 - 1 - display_offset as i64;
    if line < top {
        Some(top - line)
    } else if line > bottom {
        Some(bottom - line)
    } else {
        None
    }
}

} // verus!
