//! Inline command palette.
//!
//! Typing `/` at the start of a prompt line opens an overlay; the characters
//! still reach the shell so the user sees what they typed. Enter (after
//! navigating or with an unambiguous match) wipes the typed `/xyz` from the
//! prompt line and runs the command.

use vstd::prelude::*;

use crate::keymap::{Command, CommandSpec};
use crate::text::{
    append_chars, chars_of, has_prefix, lowercase, starts_with, str_lowercase, string_from,
    string_of, sub_chars,
};

verus! {

pub struct PaletteItem {
    pub label: String,
    pub hint: String,
    pub command: Command,
}

/// Does the `/profile <name>` entry match the (lower-cased) query?
pub open spec fn palette_shows(name: Seq<char>, q: Seq<char>) -> bool {
    ||| q.len() == 0
    ||| q == "/"@
    ||| starts_with(str_lowercase("/profile "@ + name), q)
    ||| starts_with("/profile"@, q)
}

/// The profiles listed for a query, in order.
pub open spec fn palette_names(profiles: Seq<Seq<char>>, q: Seq<char>) -> Seq<Seq<char>>
    decreases profiles.len(),
{
    if profiles.len() == 0 {
        Seq::empty()
    } else if palette_shows(profiles.last(), q) {
        palette_names(profiles.drop_last(), q).push(profiles.last())
    } else {
        palette_names(profiles.drop_last(), q)
    }
}

/// Item `i` of the list is the `/profile <name>` entry for `name`.
pub open spec fn is_profile_item(item: PaletteItem, name: Seq<char>) -> bool {
    &&& item.label@ == "/profile "@ + name
    &&& item.hint@ == "Open a new tab in a specific profile"@
    &&& item.command@ == CommandSpec::NewTabProfile(name)
}

pub open spec fn items_match(items: Seq<PaletteItem>, names: Seq<Seq<char>>) -> bool {
    items.len() == names.len() && forall|i: int|
        0 <= i < items.len() ==> is_profile_item(#[trigger] items[i], names[i])
}

/// The palette entries for `query`: one `/profile <name>` entry per profile
/// whose label starts with the query (case-insensitively), or all of them
/// while the query is empty, `/`, or a prefix of `/profile`.
pub fn items(profiles: &[String], query: &str) -> (r: Vec<PaletteItem>)
    ensures
        items_match(
            r@,
            palette_names(profiles@.map_values(|s: String| s@), str_lowercase(query@)),
        ),
{
    let q_s = lowercase(query);
    let q = chars_of(q_s.as_str());
    let profile_word = chars_of("/profile");
    let ghost names = profiles@.map_values(|s: String| s@);
    let mut out: Vec<PaletteItem> = Vec::new();
    let mut i: usize = 0;
    while i < profiles.len()
        invariant
            0 <= i <= profiles@.len(),
            names == profiles@.map_values(|s: String| s@),
            q@ == str_lowercase(query@),
            profile_word@ == "/profile"@,
            items_match(out@, palette_names(names.subrange(0, i as int), q@)),
        decreases profiles@.len() - i,
    {
        let name = &profiles[i];
        let mut label: Vec<char> = chars_of("/profile ");
        let name_chars = chars_of(name.as_str());
        append_chars(&mut label, &name_chars);
        let label_s = string_of(&label);
        let label_lower_s = lowercase(label_s.as_str());
        let label_lower = chars_of(label_lower_s.as_str());
        let shows = q.len() == 0 || crate::keymap::is_word(&q, "/") || has_prefix(
            &label_lower,
            &q,
        ) || has_prefix(&profile_word, &q);
        let ghost before = out@;
        proof {
            assert(names.subrange(0, i + 1).drop_last() =~= names.subrange(0, i as int));
            assert(names.subrange(0, i + 1).last() == name@);
        }
        if shows {
            out.push(
                PaletteItem {
                    label: label_s,
                    hint: string_from("Open a new tab in a specific profile"),
                    command: Command::NewTabProfile(crate::text::copy_string(name)),
                },
            );
            proof {
                let ns = palette_names(names.subrange(0, i + 1), q@);
                assert(ns == palette_names(names.subrange(0, i as int), q@).push(name@));
                assert forall|k: int| 0 <= k < out@.len() implies is_profile_item(
                    #[trigger] out@[k],
                    ns[k],
                ) by {
                    if k < before.len() {
                        assert(out@[k] == before[k]);
                    }
                }
            }
        }
        i = i + 1;
    }
    assert(names.subrange(0, profiles@.len() as int) =~= names);
    out
}

/// The palette's state between frames.
pub struct PaletteState {
    pub open: bool,
    query: String,
    selected: usize,
    navigated: bool,
    /// Approximate column on the current shell line (0 = fresh prompt).
    line_col: usize,
}

/// The mathematical content of a [`PaletteState`].
pub struct PaletteView {
    pub open: bool,
    pub query: Seq<char>,
    pub selected: nat,
    pub navigated: bool,
    pub line_col: nat,
}

impl View for PaletteState {
    type V = PaletteView;

    closed spec fn view(&self) -> PaletteView {
        PaletteView {
            open: self.open,
            query: self.query@,
            selected: self.selected as nat,
            navigated: self.navigated,
            line_col: self.line_col as nat,
        }
    }
}

/// This frame's keyboard input as the palette sees it. `down`, `up` and
/// `esc` are the navigation keys the palette consumes, only read while it is
/// open; Tab counts as down.
pub struct PaletteInput {
    pub texts: Vec<String>,
    pub enter: bool,
    pub backspace: bool,
    /// Ctrl/⌘ + U, C, A or L: the shell line was reset.
    pub ctrl_reset: bool,
    pub down: bool,
    pub up: bool,
    pub esc: bool,
}

/// What the app should do after this frame's palette input handling.
pub struct PaletteAction {
    /// Send `\x15` to the active session (wipe the typed `/xyz`), then run.
    pub run: Option<Command>,
    /// Enter was taken by the palette and must not reach the shell.
    pub consume_enter: bool,
}

/// A closed palette with an empty shell line behind it.
pub open spec fn closed_view(v: PaletteView) -> bool {
    !v.open && v.query == "/"@ && v.selected == 0 && !v.navigated
}

/// Total characters of a list of texts.
pub open spec fn total_chars(texts: Seq<Seq<char>>) -> nat
    decreases texts.len(),
{
    if texts.len() == 0 {
        0
    } else {
        total_chars(texts.drop_last()) + texts.last().len()
    }
}

/// All texts joined.
pub open spec fn joined(texts: Seq<Seq<char>>) -> Seq<char>
    decreases texts.len(),
{
    if texts.len() == 0 {
        Seq::empty()
    } else {
        joined(texts.drop_last()) + texts.last()
    }
}

/// Watching the shell line while closed: each text advances the believed
/// column, and a `/` typed at column 0 opens the palette with query `/`.
pub open spec fn watch_texts(v: PaletteView, texts: Seq<Seq<char>>) -> PaletteView
    decreases texts.len(),
{
    if texts.len() == 0 {
        v
    } else {
        let w = watch_texts(v, texts.drop_last());
        let t = texts.last();
        let opened = if t == "/"@ && w.line_col == 0 {
            PaletteView { open: true, query: "/"@, selected: 0, navigated: false, ..w }
        } else {
            w
        };
        PaletteView { line_col: opened.line_col + t.len(), ..opened }
    }
}

/// `n`, or `usize::MAX` when it does not fit (the column saturates).
pub open spec fn sat(n: nat) -> nat {
    if n < usize::MAX {
        n
    } else {
        usize::MAX as nat
    }
}

/// The outcome of one frame: the next state, whether Enter runs an entry,
/// and which one.
pub struct PaletteOutcome {
    pub next: PaletteView,
    pub runs: bool,
    pub run_at: int,
}

/// The state after one frame of input, with `count` entries listed for the
/// current query.
pub open spec fn palette_step(v: PaletteView, input: PaletteInput, count: nat) -> PaletteOutcome {
    let texts = input.texts@.map_values(|s: String| s@);
    if !v.open {
        let col = if input.ctrl_reset || input.enter {
            0
        } else if input.backspace {
            if v.line_col == 0 {
                0
            } else {
                (v.line_col - 1) as nat
            }
        } else {
            v.line_col
        };
        PaletteOutcome {
            next: watch_texts(PaletteView { line_col: col, ..v }, texts),
            runs: false,
            run_at: 0,
        }
    } else {
        let after_down = if input.down {
            if count == 0 {
                0
            } else {
                (((v.selected + 1) as int) % (count as int)) as nat
            }
        } else {
            v.selected
        };
        let after_up = if input.up {
            if after_down == 0 {
                0
            } else {
                (after_down - 1) as nat
            }
        } else {
            after_down
        };
        let nav = PaletteView {
            navigated: v.navigated || input.down || input.up,
            selected: after_up,
            ..v
        };
        let closed = PaletteView {
            open: false,
            query: "/"@,
            selected: 0,
            navigated: false,
            ..nav
        };
        let run_at = if after_up < count {
            after_up as int
        } else {
            count - 1
        };
        if input.esc {
            PaletteOutcome { next: closed, runs: false, run_at }
        } else if input.enter {
            PaletteOutcome {
                next: PaletteView { line_col: 0, ..closed },
                runs: (nav.navigated || count == 1) && count > 0,
                run_at,
            }
        } else if input.backspace {
            let col = if v.line_col == 0 {
                0
            } else {
                (v.line_col - 1) as nat
            };
            if nav.query.len() <= 1 {
                PaletteOutcome { next: PaletteView { line_col: col, ..closed }, runs: false, run_at }
            } else {
                PaletteOutcome {
                    next: PaletteView {
                        query: nav.query.drop_last(),
                        selected: 0,
                        navigated: false,
                        line_col: col,
                        ..nav
                    },
                    runs: false,
                    run_at,
                }
            }
        } else if texts.len() > 0 {
            PaletteOutcome {
                next: PaletteView {
                    query: nav.query + joined(texts),
                    selected: 0,
                    navigated: false,
                    line_col: nav.line_col + total_chars(texts),
                    ..nav
                },
                runs: false,
                run_at,
            }
        } else {
            PaletteOutcome { next: nav, runs: false, run_at }
        }
    }
}

impl PaletteState {
    /// A closed palette.
    pub fn new() -> (r: PaletteState)
        ensures
            closed_view(r@),
            r@.line_col == 0,
    {
        PaletteState {
            open: false,
            query: string_from("/"),
            selected: 0,
            navigated: false,
            line_col: 0,
        }
    }

    pub fn is_open(&self) -> (r: bool)
        ensures
            r == self@.open,
    {
        self.open
    }

    /// The text typed since the palette opened.
    pub fn query(&self) -> (r: String)
        ensures
            r@ == self@.query,
    {
        crate::text::copy_string(&self.query)
    }

    /// The highlighted entry.
    pub fn selected(&self) -> (r: usize)
        ensures
            r == self@.selected,
    {
        self.selected
    }

    /// Hover over an entry highlights it.
    pub fn select(&mut self, index: usize)
        ensures
            final(self)@ == (PaletteView { selected: index as nat, ..old(self)@ }),
    {
        self.selected = index;
    }

    pub fn close(&mut self)
        ensures
            closed_view(final(self)@),
            final(self)@.line_col == old(self)@.line_col,
    {
        self.open = false;
        self.query = string_from("/");
        self.selected = 0;
        self.navigated = false;
    }

    /// Process this frame's keyboard input. Printable characters are never
    /// consumed (they must reach the PTY and stay visible on the prompt
    /// line). While open, Enter after navigating runs the highlighted entry
    /// (clamped to the list), and Enter on a query that lists exactly one
    /// entry runs that one; either way Enter is taken from the shell.
    pub fn handle_input(&mut self, input: &PaletteInput, profiles: &[String]) -> (r: PaletteAction)
        ensures
            ({
                let q = str_lowercase(old(self)@.query);
                let names = palette_names(profiles@.map_values(|s: String| s@), q);
                let out = palette_step(old(self)@, *input, names.len());
                &&& final(self)@.open == out.next.open
                &&& final(self)@.query == out.next.query
                &&& final(self)@.navigated == out.next.navigated
                &&& final(self)@.selected == out.next.selected
                &&& final(self)@.line_col == sat(out.next.line_col)
                &&& r.consume_enter == out.runs
                &&& (out.runs ==> (r.run matches Some(c) && c@ == CommandSpec::NewTabProfile(
                    names[out.run_at],
                )))
                &&& (!out.runs ==> r.run is None)
            }),
    {
        let mut action = PaletteAction { run: None, consume_enter: false };
        let ghost texts = input.texts@.map_values(|s: String| s@);
        if !self.open {
            if input.ctrl_reset || input.enter {
                self.line_col = 0;
            } else if input.backspace {
                self.line_col = if self.line_col == 0 {
                    0
                } else {
                    self.line_col - 1
                };
            }
            let ghost start = self@;
            let mut i: usize = 0;
            while i < input.texts.len()
                invariant
                    0 <= i <= input.texts@.len(),
                    texts == input.texts@.map_values(|s: String| s@),
                    ({
                        let w = watch_texts(start, texts.subrange(0, i as int));
                        &&& self@.open == w.open
                        &&& self@.query == w.query
                        &&& self@.selected == w.selected
                        &&& self@.navigated == w.navigated
                        &&& self@.line_col == sat(w.line_col)
                    }),
                decreases input.texts@.len() - i,
            {
                let t = chars_of(input.texts[i].as_str());
                proof {
                    assert(texts.subrange(0, i + 1).drop_last() =~= texts.subrange(0, i as int));
                    assert(texts.subrange(0, i + 1).last() == t@);
                }
                if crate::keymap::is_word(&t, "/") && self.line_col == 0 {
                    self.open = true;
                    self.query = string_from("/");
                    self.selected = 0;
                    self.navigated = false;
                }
                self.line_col = self.line_col.saturating_add(t.len());
                i = i + 1;
            }
            assert(texts.subrange(0, input.texts@.len() as int) =~= texts);
            return action;
        }
        // Palette open: navigation keys are consumed, printables pass through.
        let list = items(profiles, self.query.as_str());
        let count = list.len();
        if input.down {
            self.navigated = true;
            let ghost s0 = self.selected as int;
            self.selected = if count == 0 {
                0
            } else {
                let m = self.selected % count;
                proof {
                    lemma_succ_mod(s0, count as int);
                }
                if m + 1 == count {
                    0
                } else {
                    m + 1
                }
            };
        }
        if input.up {
            self.navigated = true;
            self.selected = if self.selected == 0 {
                0
            } else {
                self.selected - 1
            };
        }
        if input.esc {
            self.close();
            return action;
        }
        if input.enter {
            self.line_col = 0;
            if (self.navigated || count == 1) && count > 0 {
                // Take Enter so the shell doesn't run the typed `/xyz`.
                action.consume_enter = true;
                let at = if self.selected < count {
                    self.selected
                } else {
                    count - 1
                };
                action.run = Some(clone_command(&list[at].command));
            }
            self.close();
            return action;
        }
        if input.backspace {
            self.line_col = if self.line_col == 0 {
                0
            } else {
                self.line_col - 1
            };
            let q = chars_of(self.query.as_str());
            if q.len() <= 1 {
                self.close();
            } else {
                let shorter = sub_chars(&q, 0, q.len() - 1);
                self.query = string_of(&shorter);
                self.selected = 0;
                self.navigated = false;
            }
            return action;
        }
        if input.texts.len() > 0 {
            let mut q = chars_of(self.query.as_str());
            let ghost q0 = q@;
            let ghost col0 = self@.line_col;
            let mut i: usize = 0;
            while i < input.texts.len()
                invariant
                    0 <= i <= input.texts@.len(),
                    texts == input.texts@.map_values(|s: String| s@),
                    q@ == q0 + joined(texts.subrange(0, i as int)),
                    self@.line_col == sat(col0 + total_chars(texts.subrange(0, i as int))),
                    self@.open == old(self)@.open,
                decreases input.texts@.len() - i,
            {
                let t = chars_of(input.texts[i].as_str());
                proof {
                    assert(texts.subrange(0, i + 1).drop_last() =~= texts.subrange(0, i as int));
                    assert(texts.subrange(0, i + 1).last() == t@);
                }
                append_chars(&mut q, &t);
                self.line_col = self.line_col.saturating_add(t.len());
                i = i + 1;
            }
            assert(texts.subrange(0, input.texts@.len() as int) =~= texts);
            self.query = string_of(&q);
            self.selected = 0;
            self.navigated = false;
        }
        action
    }
}

/// `(s + 1) % c` from `s % c`.
pub proof fn lemma_succ_mod(s: int, c: int)
    requires
        s >= 0,
        c > 0,
    ensures
        (s + 1) % c == (if s % c + 1 == c {
            0
        } else {
            s % c + 1
        }),
{
    vstd::arithmetic::div_mod::lemma_fundamental_div_mod(s, c);
    let q = s / c;
    let r = s % c;
    assert(0 <= r < c);
    if r + 1 == c {
        assert(s + 1 == (q + 1) * c + 0) by (nonlinear_arith)
            requires
                s == c * q + r,
                r + 1 == c,
        ;
        vstd::arithmetic::div_mod::lemma_fundamental_div_mod_converse(s + 1, c, q + 1, 0);
    } else {
        assert(s + 1 == q * c + (r + 1)) by (nonlinear_arith)
            requires
                s == c * q + r,
        ;
        vstd::arithmetic::div_mod::lemma_fundamental_div_mod_converse(s + 1, c, q, r + 1);
    }
}

/// A copy of a command.
pub fn clone_command(c: &Command) -> (r: Command)
    ensures
        r@ == c@,
{
    match c {
        Command::NewWindowProfile(p) => Command::NewWindowProfile(crate::text::copy_string(p)),
        Command::NewTabProfile(p) => Command::NewTabProfile(crate::text::copy_string(p)),
        Command::SplitRightProfile(p) => Command::SplitRightProfile(crate::text::copy_string(p)),
        Command::SplitDownProfile(p) => Command::SplitDownProfile(crate::text::copy_string(p)),
        Command::NewWindow => Command::NewWindow,
        Command::CloseWindow => Command::CloseWindow,
        Command::MinimizeWindow => Command::MinimizeWindow,
        Command::ZoomWindow => Command::ZoomWindow,
        Command::ToggleFullScreen => Command::ToggleFullScreen,
        Command::Preferences => Command::Preferences,
        Command::OpenConfigFile => Command::OpenConfigFile,
        Command::ZoomReset => Command::ZoomReset,
        Command::ZoomIn => Command::ZoomIn,
        Command::ZoomOut => Command::ZoomOut,
        Command::NewTab => Command::NewTab,
        Command::NextTab => Command::NextTab,
        Command::PrevTab => Command::PrevTab,
        Command::JumpTab(n) => Command::JumpTab(*n),
        Command::JumpTabLast => Command::JumpTabLast,
        Command::NextPane => Command::NextPane,
        Command::PrevPane => Command::PrevPane,
        Command::SplitRight => Command::SplitRight,
        Command::SplitDown => Command::SplitDown,
        Command::ClosePane => Command::ClosePane,
        Command::Copy => Command::Copy,
        Command::Paste => Command::Paste,
        Command::SelectAll => Command::SelectAll,
        Command::Search => Command::Search,
        Command::SearchClose => Command::SearchClose,
        Command::ClearBuffer => Command::ClearBuffer,
        Command::PtyBytes(b) => Command::PtyBytes(b),
    }
}

/// Arrow keys move the highlight by one entry while the palette is open:
/// Up moves it up (staying on the first entry), Down moves it down
/// (wrapping to the first after the last).
pub proof fn law_arrows_move_selection(v: PaletteView, input: PaletteInput, count: nat)
    requires
        v.open,
        !input.esc,
        !input.enter,
        !input.backspace,
        input.texts@.len() == 0,
    ensures
        input.up && !input.down ==> palette_step(v, input, count).next.selected == if v.selected > 0 {
            v.selected - 1
        } else {
            0
        },
        input.down && !input.up && v.selected + 1 < count ==> palette_step(v, input, count).next.selected
            == v.selected + 1,
        input.down && !input.up && v.selected + 1 == count ==> palette_step(v, input, count).next.selected == 0,
        (input.up || input.down) ==> palette_step(v, input, count).next.open && palette_step(
            v,
            input,
            count,
        ).next.query == v.query && !palette_step(v, input, count).runs,
{
    if input.down && !input.up && count > 0 {
        if v.selected + 1 < count {
            vstd::arithmetic::div_mod::lemma_small_mod((v.selected + 1) as nat, count);
        } else if v.selected + 1 == count {
            vstd::arithmetic::div_mod::lemma_mod_self_0(count as int);
        }
    }
    assert(input.texts@.map_values(|s: String| s@).len() == 0);
}

/// The palette lists exactly the profiles whose entry matches the query,
/// in the profiles' order: nothing else and nothing left out; an empty
/// query, `/`, or any prefix of `/profile` lists every profile.
pub proof fn law_palette_filters_profiles(ps: Seq<Seq<char>>, q: Seq<char>)
    ensures
        forall|j: int|
            0 <= j < palette_names(ps, q).len() ==> ps.contains(#[trigger] palette_names(ps, q)[j])
                && palette_shows(palette_names(ps, q)[j], q),
        forall|i: int| 0 <= i < ps.len() && palette_shows(#[trigger] ps[i], q) ==> palette_names(ps, q).contains(ps[i]),
        palette_names(ps, q).len() <= ps.len(),
        (q.len() == 0 || q == "/"@ || starts_with("/profile"@, q)) ==> palette_names(ps, q) == ps,
    decreases ps.len(),
{
    if ps.len() > 0 {
        let pre = ps.drop_last();
        law_palette_filters_profiles(pre, q);
        let n = palette_names(pre, q);
        let r = palette_names(ps, q);
        assert forall|j: int| 0 <= j < r.len() implies ps.contains(#[trigger] r[j]) && palette_shows(r[j], q) by {
            if j < n.len() {
                assert(r[j] == n[j]);
                let k = choose|k: int| 0 <= k < pre.len() && pre[k] == n[j];
                assert(ps[k] == pre[k]);
            } else {
                assert(r[j] == ps.last());
                assert(ps[ps.len() - 1] == ps.last());
            }
        }
        assert forall|i: int| 0 <= i < ps.len() && palette_shows(#[trigger] ps[i], q) implies r.contains(ps[i]) by {
            if i < pre.len() {
                assert(pre[i] == ps[i]);
                assert(n.contains(pre[i]));
                let k = choose|k: int| 0 <= k < n.len() && n[k] == pre[i];
                assert(r[k] == n[k]);
            } else {
                assert(r[r.len() - 1] == ps.last());
            }
        }
        if q.len() == 0 || q == "/"@ || starts_with("/profile"@, q) {
            assert(ps =~= pre.push(ps.last()));
        }
    }
}

} // verus!
