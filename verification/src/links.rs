//! Which links may leave the terminal, and which modifier activates them.

use vstd::prelude::*;

use crate::grid::{GridSnapshot, SnapCell};
use crate::keymap::is_word;
use crate::paths::utf8_width;
use crate::modes::Modifiers;
use crate::text::{chars_of, copy_string, has_prefix, lowercase, starts_with, str_lowercase, string_of};

verus! {

/// The URL allowlist for opening links externally: http and https,
/// in any letter case, and nothing else.
pub open spec fn safe_url_spec(url: Seq<char>) -> bool {
    starts_with(str_lowercase(url), "http://"@) || starts_with(str_lowercase(url), "https://"@)
}

/// Only these schemes may be opened externally.
pub fn is_safe_url(url: &str) -> (r: bool)
    ensures
        r == safe_url_spec(url@),
{
    let lower_s = lowercase(url);
    let lower = chars_of(lower_s.as_str());
    let http = chars_of("http://");
    let https = chars_of("https://");
    has_prefix(&lower, &http) || has_prefix(&lower, &https)
}

/// Does the configured activation key match the current modifiers?
/// An empty string means no modifier is required (Hyper's default); an
/// unknown name never matches.
pub open spec fn activation_spec(activation: Seq<char>, m: Modifiers) -> bool {
    if activation.len() == 0 {
        true
    } else if activation == "ctrl"@ {
        m.ctrl
    } else if activation == "alt"@ {
        m.alt
    } else if activation == "shift"@ {
        m.shift
    } else if activation == "meta"@ {
        m.mac_cmd || m.command
    } else {
        false
    }
}

pub fn activation_matches(activation: &str, mods: Modifiers) -> (r: bool)
    ensures
        r == activation_spec(activation@, mods),
{
    let a = chars_of(activation);
    if a.len() == 0 {
        true
    } else if is_word(&a, "ctrl") {
        mods.ctrl
    } else if is_word(&a, "alt") {
        mods.alt
    } else if is_word(&a, "shift") {
        mods.shift
    } else if is_word(&a, "meta") {
        mods.mac_cmd || mods.command
    } else {
        false
    }
}

/// Plain-text link detection: http and https only (terminal output is
/// untrusted, so a printed `file://` link must not become clickable), and a
/// link does not end in punctuation that normally ends a sentence, so
/// "see https://example.com/docs!" links to the URL without the "!".
pub const URL_PATTERN: &'static str = "https?://[^\\s'\"<>\\(\\)\\[\\]\\{\\}]*[^\\s'\"<>\\(\\)\\[\\]\\{\\}:,.!?~*_]";

/// What `regex` finds in `text` for `pattern`, match after match as
/// `find_iter` yields them: start and end byte offsets and the matched text;
/// nothing when the pattern does not compile.
pub uninterp spec fn regex_find_all(pattern: Seq<char>, text: Seq<char>) -> Option<Seq<(usize, usize, Seq<char>)>>;

pub open spec fn found_view(v: Seq<(usize, usize, String)>) -> Seq<(usize, usize, Seq<char>)> {
    v.map_values(|m: (usize, usize, String)| (m.0, m.1, m.2@))
}

/// `Regex::new(pattern)`, then `find_iter(text)` with each match's start,
/// end and text. The contract names the result; it states nothing of the
/// regex engine.
#[verifier::external_body]
fn find_all(pattern: &str, text: &str) -> (r: Option<Vec<(usize, usize, String)>>)
    ensures
        match r {
            Some(v) => regex_find_all(pattern@, text@) == Some(found_view(v@)),
            None => regex_find_all(pattern@, text@) is None,
        },
{
    match regex::Regex::new(pattern) {
        Ok(re) => Some(re.find_iter(text).map(|m| (m.start(), m.end(), m.as_str().to_string())).collect()),
        Err(_) => None,
    }
}

/// A link found under the pointer: the URI and the columns it covers on
/// its row.
#[derive(Debug, Clone, PartialEq)]
pub struct HoveredLink {
    pub uri: String,
    pub row: usize,
    pub col_start: usize,
    pub col_end: usize,
}

/// The characters of a row with the column each starts at, from column
/// `c` on: a wide character's spacer half is skipped.
pub open spec fn row_walk(cells: Seq<SnapCell>, c: nat) -> Seq<(char, nat)>
    decreases cells.len() + 1 - c,
{
    if c >= cells.len() {
        seq![]
    } else if cells[c as int].spacer {
        row_walk(cells, c + 1)
    } else {
        seq![(cells[c as int].ch, c)] + row_walk(cells, c + if cells[c as int].wide { 2nat } else { 1nat })
    }
}

/// The text of a walked row.
pub open spec fn walk_text(w: Seq<(char, nat)>) -> Seq<char> {
    w.map_values(|p: (char, nat)| p.0)
}

/// For each UTF-8 byte of a walked row's text, the column of its character.
pub open spec fn walk_byte_cols(w: Seq<(char, nat)>) -> Seq<nat>
    decreases w.len(),
{
    if w.len() == 0 {
        seq![]
    } else {
        walk_byte_cols(w.drop_last()) + Seq::new(utf8_width(w.last().0), |i: int| w.last().1)
    }
}

/// The link among `matches` that covers `col`: the first whose columns
/// (from its first byte's to its last byte's, or the row's end) hold `col`.
/// A match that starts past the byte map ends the search with nothing.
pub open spec fn link_from(matches: Seq<(usize, usize, Seq<char>)>, byte_cols: Seq<nat>, row: nat, col: nat) -> Option<
    (Seq<char>, nat, nat, nat),
>
    decreases matches.len(),
{
    if matches.len() == 0 {
        None
    } else {
        let m = matches[0];
        if m.0 >= byte_cols.len() {
            None
        } else {
            let start = byte_cols[m.0 as int];
            let last: int = if m.1 == 0 { 0 } else { m.1 - 1 };
            let end = if last < byte_cols.len() { byte_cols[last] } else { byte_cols.last() };
            if start <= col && col <= end {
                Some((m.2, row, start, end))
            } else {
                link_from(matches.drop_first(), byte_cols, row, col)
            }
        }
    }
}

pub open spec fn link_view(l: Option<HoveredLink>) -> Option<(Seq<char>, nat, nat, nat)> {
    match l {
        Some(h) => Some((h.uri@, h.row as nat, h.col_start as nat, h.col_end as nat)),
        None => None,
    }
}

/// The link among `matches` covering `col` on `row`; `byte_cols` maps
/// each byte of the row text to its column, with the row's width appended.
pub fn link_in_matches(matches: &Vec<(usize, usize, String)>, byte_cols: &Vec<usize>, row: usize, col: usize) -> (r: Option<HoveredLink>)
    requires
        byte_cols@.len() > 0,
    ensures
        link_view(r) == link_from(found_view(matches@), byte_cols@.map_values(|c: usize| c as nat), row as nat, col as nat),
{
    let ghost fv = found_view(matches@);
    let ghost bv = byte_cols@.map_values(|c: usize| c as nat);
    let mut i: usize = 0;
    assert(fv.skip(0) =~= fv);
    while i < matches.len()
        invariant
            0 <= i <= matches@.len(),
            fv == found_view(matches@),
            bv == byte_cols@.map_values(|c: usize| c as nat),
            byte_cols@.len() > 0,
            link_from(fv, bv, row as nat, col as nat) == link_from(fv.skip(i as int), bv, row as nat, col as nat),
        decreases matches@.len() - i,
    {
        let ghost rest = fv.skip(i as int);
        assert(rest[0] == fv[i as int]);
        assert(rest.drop_first() =~= fv.skip(i + 1));
        let start_byte = matches[i].0;
        let end_byte = matches[i].1;
        if start_byte >= byte_cols.len() {
            return None;
        }
        let start = byte_cols[start_byte];
        let last = end_byte.saturating_sub(1);
        let end = if last < byte_cols.len() {
            byte_cols[last]
        } else {
            byte_cols[byte_cols.len() - 1]
        };
        if start <= col && col <= end {
            return Some(HoveredLink { uri: copy_string(&matches[i].2), row, col_start: start, col_end: end });
        }
        i = i + 1;
    }
    assert(fv.skip(i as int) =~= Seq::<(usize, usize, Seq<char>)>::empty());
    None
}

/// Bytes `ch` takes in UTF-8.
fn char_utf8_width(ch: char) -> (r: usize)
    ensures
        r == utf8_width(ch),
{
    if (ch as u32) < 0x80 {
        1
    } else if (ch as u32) < 0x800 {
        2
    } else if (ch as u32) < 0x10000 {
        3
    } else {
        4
    }
}

/// The text of row `row` and, for each of its UTF-8 bytes, the column of
/// its character, with the row's width appended.
pub fn row_text(snap: &GridSnapshot, row: usize) -> (r: (Vec<char>, Vec<usize>))
    requires
        snap.wf(),
        row < snap.lines,
    ensures
        r.0@ == walk_text(row_walk(snap.row_cells(row as int), 0)),
        r.1@.map_values(|c: usize| c as nat) == walk_byte_cols(row_walk(snap.row_cells(row as int), 0)).push(snap.cols as nat),
{
    let ghost cells = snap.row_cells(row as int);
    proof {
        let c = snap.cols as int;
        let l = snap.lines as int;
        assert(row * c + c <= c * l) by (nonlinear_arith)
            requires
                0 <= row < l,
                0 <= c,
        ;
        assert(cells.len() == snap.cols);
    }
    let mut text: Vec<char> = Vec::new();
    let mut bytes: Vec<usize> = Vec::new();
    let ghost mut acc: Seq<(char, nat)> = seq![];
    let mut c: usize = 0;
    assert(acc + row_walk(cells, 0) =~= row_walk(cells, 0));
    while c < snap.cols
        invariant
            snap.wf(),
            row < snap.lines,
            cells == snap.row_cells(row as int),
            cells.len() == snap.cols,
            acc + row_walk(cells, c as nat) == row_walk(cells, 0),
            text@ == walk_text(acc),
            bytes@.map_values(|x: usize| x as nat) == walk_byte_cols(acc),
            forall|j: int| 0 <= j < bytes@.len() ==> #[trigger] bytes@[j] <= c,
            c <= snap.cols + 1,
        decreases snap.cols + 2 - c,
    {
        let cell = snap.cell(row, c);
        let ghost c0 = c as nat;
        assert(cells[c0 as int] == *cell);
        if cell.spacer {
            c = c + 1;
        } else {
            let ch = cell.ch;
            let w = char_utf8_width(ch);
            let ghost b0 = bytes@.map_values(|x: usize| x as nat);
            let mut k: usize = 0;
            while k < w
                invariant
                    0 <= k <= w,
                    bytes@.map_values(|x: usize| x as nat) == b0 + Seq::new(k as nat, |i: int| c as nat),
                    b0 == walk_byte_cols(acc),
                    forall|j: int| 0 <= j < bytes@.len() ==> #[trigger] bytes@[j] <= c,
                decreases w - k,
            {
                let ghost prev = bytes@;
                bytes.push(c);
                k = k + 1;
                assert(bytes@ =~= prev.push(c));
                assert(bytes@.map_values(|x: usize| x as nat) =~= prev.map_values(|x: usize| x as nat).push(c as nat));
                assert(bytes@.map_values(|x: usize| x as nat) =~= b0 + Seq::new(k as nat, |i: int| c as nat));
            }
            text.push(ch);
            proof {
                let x = (ch, c as nat);
                let acc2 = acc.push(x);
                assert(acc2.drop_last() =~= acc);
                assert(walk_text(acc2) =~= walk_text(acc).push(ch));
                assert(walk_byte_cols(acc2) == walk_byte_cols(acc) + Seq::new(utf8_width(ch), |i: int| c as nat));
                assert(Seq::new(utf8_width(ch), |i: int| c as nat) =~= Seq::new(k as nat, |i: int| c as nat));
                acc = acc2;
            }
            c = if cell.wide { c.saturating_add(2) } else { c + 1 };
            proof {
                let step: nat = if cells[c0 as int].wide { 2 } else { 1 };
                assert(row_walk(cells, c0) == seq![(ch, c0)] + row_walk(cells, c0 + step));
                if c0 + step != c as nat {
                    assert(row_walk(cells, c0 + step) =~= Seq::<(char, nat)>::empty());
                    assert(row_walk(cells, c as nat) =~= Seq::<(char, nat)>::empty());
                }
            }
        }
        proof {
            assert(acc + row_walk(cells, c as nat) =~= row_walk(cells, 0));
        }
    }
    let ghost pre = bytes@.map_values(|x: usize| x as nat);
    bytes.push(snap.cols);
    proof {
        assert(row_walk(cells, c as nat) =~= Seq::<(char, nat)>::empty());
        assert(acc =~= row_walk(cells, 0));
        assert(bytes@.map_values(|x: usize| x as nat) =~= pre.push(snap.cols as nat));
    }
    (text, bytes)
}

/// Scan the row under the pointer for an http(s) URL covering `col`.
pub fn link_at(snap: &GridSnapshot, row: usize, col: usize) -> (r: Option<HoveredLink>)
    requires
        snap.wf(),
    ensures
        row >= snap.lines ==> r is None,
        row < snap.lines ==> link_view(r) == ({
            let w = row_walk(snap.row_cells(row as int), 0);
            match regex_find_all(URL_PATTERN@, walk_text(w)) {
                Some(ms) => link_from(ms, walk_byte_cols(w).push(snap.cols as nat), row as nat, col as nat),
                None => None,
            }
        }),
{
    if row >= snap.lines {
        return None;
    }
    let (text, bytes) = row_text(snap, row);
    let s = string_of(&text);
    match find_all(URL_PATTERN, s.as_str()) {
        Some(ms) => link_in_matches(&ms, &bytes, row, col),
        None => None,
    }
}

/// The columns a match spans on the row: from its first byte's column to
/// its last byte's (the row's end when that byte is past the map).
pub open spec fn match_span(m: (usize, usize, Seq<char>), byte_cols: Seq<nat>) -> (nat, nat) {
    let last: int = if m.1 == 0 { 0 } else { m.1 - 1 };
    (byte_cols[m.0 as int], if last < byte_cols.len() { byte_cols[last] } else { byte_cols.last() })
}

/// Hovering finds every link on the row, not only the first: when some
/// match spans the hovered column (and no earlier match starts past the
/// row's byte map), a link is found; and any link found is one of the
/// matches, on this row, spanning the hovered column.
pub proof fn law_hover_finds_covering_match(
    matches: Seq<(usize, usize, Seq<char>)>,
    byte_cols: Seq<nat>,
    row: nat,
    col: nat,
    i: int,
)
    requires
        0 <= i < matches.len(),
        forall|j: int| 0 <= j <= i ==> (#[trigger] matches[j]).0 < byte_cols.len(),
        match_span(matches[i], byte_cols).0 <= col <= match_span(matches[i], byte_cols).1,
    ensures
        link_from(matches, byte_cols, row, col) is Some,
    decreases i,
{
    if i > 0 {
        let m = matches[0];
        assert(m.0 < byte_cols.len());
        let rest = matches.drop_first();
        assert(rest[i - 1] == matches[i]);
        assert forall|j: int| 0 <= j <= i - 1 implies (#[trigger] rest[j]).0 < byte_cols.len() by {
            assert(rest[j] == matches[j + 1]);
        }
        law_hover_finds_covering_match(rest, byte_cols, row, col, i - 1);
    } else {
        assert(matches[0].0 < byte_cols.len());
    }
}

/// Any link hovering finds is one of the matches, on the hovered row, and
/// spans the hovered column.
pub proof fn law_hovered_link_covers_column(
    matches: Seq<(usize, usize, Seq<char>)>,
    byte_cols: Seq<nat>,
    row: nat,
    col: nat,
)
    ensures
        link_from(matches, byte_cols, row, col) matches Some((uri, r, s, e)) ==> {
            &&& r == row
            &&& s <= col <= e
            &&& exists|j: int|
                0 <= j < matches.len() && (#[trigger] matches[j]).2 == uri && matches[j].0 < byte_cols.len()
                    && match_span(matches[j], byte_cols) == (s, e)
        },
    decreases matches.len(),
{
    if matches.len() > 0 && matches[0].0 < byte_cols.len() {
        let rest = matches.drop_first();
        law_hovered_link_covers_column(rest, byte_cols, row, col);
        match link_from(matches, byte_cols, row, col) {
            Some((uri, r, s, e)) => {
                let sp = match_span(matches[0], byte_cols);
                if sp.0 <= col && col <= sp.1 {
                    assert(matches[0].2 == uri);
                } else {
                    let j = choose|j: int|
                        0 <= j < rest.len() && (#[trigger] rest[j]).2 == uri && rest[j].0 < byte_cols.len()
                            && match_span(rest[j], byte_cols) == (s, e);
                    assert(matches[j + 1] == rest[j]);
                }
            },
            None => {},
        }
    }
}

} // verus!
