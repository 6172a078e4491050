//! Menu accelerators derived from the keymap, so remaps show up in the
//! native menus.

use vstd::prelude::*;

use crate::input::is_function_key;
use crate::keymap::{is_word, Command, KeyChord};
use crate::text::{
    ascii_upper, char_ascii_upper, char_is_ascii_alnum, chars_eq, chars_of, copy_string,
    is_ascii_alnum, is_digit, string_of,
};

verus! {

/// The menu-toolkit names of the keys that are spelled out.
pub open spec fn named_accel_key(key: Seq<char>) -> Option<Seq<char>> {
    if key == "plus"@ || key == "="@ {
        Some("="@)
    } else if key == "minus"@ || key == "-"@ {
        Some("-"@)
    } else if key == ","@ || key == "."@ || key == "/"@ || key == ";"@ || key == "'"@ || key
        == "\\"@ || key == "["@ || key == "]"@ || key == "`"@ {
        Some(key)
    } else if key == "left"@ {
        Some("ArrowLeft"@)
    } else if key == "right"@ {
        Some("ArrowRight"@)
    } else if key == "up"@ {
        Some("ArrowUp"@)
    } else if key == "down"@ {
        Some("ArrowDown"@)
    } else if key == "enter"@ || key == "return"@ {
        Some("Enter"@)
    } else if key == "tab"@ {
        Some("Tab"@)
    } else if key == "space"@ {
        Some("Space"@)
    } else if key == "backspace"@ {
        Some("Backspace"@)
    } else if key == "delete"@ || key == "del"@ {
        Some("Delete"@)
    } else if key == "ins"@ || key == "insert"@ {
        Some("Insert"@)
    } else if key == "esc"@ || key == "escape"@ {
        Some("Escape"@)
    } else if key == "home"@ {
        Some("Home"@)
    } else if key == "end"@ {
        Some("End"@)
    } else if key == "pageup"@ {
        Some("PageUp"@)
    } else if key == "pagedown"@ {
        Some("PageDown"@)
    } else {
        None
    }
}

/// The accelerator spelling of a chord's key: a single ASCII letter or
/// digit upper-cased; the named keys above; `f1`…`f19` upper-cased; nothing
/// for anything else.
pub open spec fn accel_key_spec(key: Seq<char>) -> Option<Seq<char>> {
    if key.len() == 1 && is_ascii_alnum(key[0]) {
        Some(seq![ascii_upper(key[0])])
    } else if named_accel_key(key) is Some {
        named_accel_key(key)
    } else if crate::input::is_function_key_spec(key) {
        Some(key.update(0, 'F'))
    } else {
        None
    }
}

fn named_accel(key: &[char]) -> (r: Option<&'static str>)
    ensures
        match r {
            Some(s) => named_accel_key(key@) == Some(s@),
            None => named_accel_key(key@) is None,
        },
{
    if is_word(key, "plus") || is_word(key, "=") {
        Some("=")
    } else if is_word(key, "minus") || is_word(key, "-") {
        Some("-")
    } else if is_word(key, ",") {
        Some(",")
    } else if is_word(key, ".") {
        Some(".")
    } else if is_word(key, "/") {
        Some("/")
    } else if is_word(key, ";") {
        Some(";")
    } else if is_word(key, "'") {
        Some("'")
    } else if is_word(key, "\\") {
        Some("\\")
    } else if is_word(key, "[") {
        Some("[")
    } else if is_word(key, "]") {
        Some("]")
    } else if is_word(key, "`") {
        Some("`")
    } else if is_word(key, "left") {
        Some("ArrowLeft")
    } else if is_word(key, "right") {
        Some("ArrowRight")
    } else if is_word(key, "up") {
        Some("ArrowUp")
    } else if is_word(key, "down") {
        Some("ArrowDown")
    } else if is_word(key, "enter") || is_word(key, "return") {
        Some("Enter")
    } else if is_word(key, "tab") {
        Some("Tab")
    } else if is_word(key, "space") {
        Some("Space")
    } else if is_word(key, "backspace") {
        Some("Backspace")
    } else if is_word(key, "delete") || is_word(key, "del") {
        Some("Delete")
    } else if is_word(key, "ins") || is_word(key, "insert") {
        Some("Insert")
    } else if is_word(key, "esc") || is_word(key, "escape") {
        Some("Escape")
    } else if is_word(key, "home") {
        Some("Home")
    } else if is_word(key, "end") {
        Some("End")
    } else if is_word(key, "pageup") {
        Some("PageUp")
    } else if is_word(key, "pagedown") {
        Some("PageDown")
    } else {
        None
    }
}

/// The menu accelerator spelling of a chord's key, or None when the menu
/// toolkit has no name for it.
pub fn accel_key(key: &str) -> (r: Option<String>)
    ensures
        match r {
            Some(s) => accel_key_spec(key@) == Some(s@),
            None => accel_key_spec(key@) is None,
        },
{
    let k = chars_of(key);
    if k.len() == 1 && char_is_ascii_alnum(k[0]) {
        let mut v: Vec<char> = Vec::new();
        v.push(char_ascii_upper(k[0]));
        assert(v@ =~= seq![ascii_upper(k@[0])]);
        return Some(string_of(&v));
    }
    if let Some(name) = named_accel(&k) {
        return Some(crate::text::string_from(name));
    }
    if is_function_key(&k) {
        let mut v = k.clone();
        v.set(0, 'F');
        assert(v@ =~= k@.update(0, 'F'));
        return Some(string_of(&v));
    }
    None
}

/// Structural equality of two commands, by their contents.
pub fn command_eq(a: &Command, b: &Command) -> (r: bool)
    ensures
        r == (a@ == b@),
{
    match (a, b) {
        (Command::NewWindow, Command::NewWindow) => true,
        (Command::NewWindowProfile(x), Command::NewWindowProfile(y)) => crate::text::str_eq(
            x.as_str(),
            y.as_str(),
        ),
        (Command::CloseWindow, Command::CloseWindow) => true,
        (Command::MinimizeWindow, Command::MinimizeWindow) => true,
        (Command::ZoomWindow, Command::ZoomWindow) => true,
        (Command::ToggleFullScreen, Command::ToggleFullScreen) => true,
        (Command::Preferences, Command::Preferences) => true,
        (Command::OpenConfigFile, Command::OpenConfigFile) => true,
        (Command::ZoomReset, Command::ZoomReset) => true,
        (Command::ZoomIn, Command::ZoomIn) => true,
        (Command::ZoomOut, Command::ZoomOut) => true,
        (Command::NewTab, Command::NewTab) => true,
        (Command::NewTabProfile(x), Command::NewTabProfile(y)) => crate::text::str_eq(
            x.as_str(),
            y.as_str(),
        ),
        (Command::NextTab, Command::NextTab) => true,
        (Command::PrevTab, Command::PrevTab) => true,
        (Command::JumpTab(x), Command::JumpTab(y)) => *x == *y,
        (Command::JumpTabLast, Command::JumpTabLast) => true,
        (Command::NextPane, Command::NextPane) => true,
        (Command::PrevPane, Command::PrevPane) => true,
        (Command::SplitRight, Command::SplitRight) => true,
        (Command::SplitRightProfile(x), Command::SplitRightProfile(y)) => crate::text::str_eq(
            x.as_str(),
            y.as_str(),
        ),
        (Command::SplitDown, Command::SplitDown) => true,
        (Command::SplitDownProfile(x), Command::SplitDownProfile(y)) => crate::text::str_eq(
            x.as_str(),
            y.as_str(),
        ),
        (Command::ClosePane, Command::ClosePane) => true,
        (Command::Copy, Command::Copy) => true,
        (Command::Paste, Command::Paste) => true,
        (Command::SelectAll, Command::SelectAll) => true,
        (Command::Search, Command::Search) => true,
        (Command::SearchClose, Command::SearchClose) => true,
        (Command::ClearBuffer, Command::ClearBuffer) => true,
        (Command::PtyBytes(x), Command::PtyBytes(y)) => bytes_eq(x, y),
        _ => false,
    }
}

pub fn bytes_eq(a: &[u8], b: &[u8]) -> (r: bool)
    ensures
        r == (a@ == b@),
{
    if a.len() != b.len() {
        return false;
    }
    let mut i: usize = 0;
    while i < a.len()
        invariant
            a@.len() == b@.len(),
            0 <= i <= a@.len(),
            forall|j: int| 0 <= j < i ==> a@[j] == b@[j],
        decreases a@.len() - i,
    {
        if a[i] != b[i] {
            return false;
        }
        i = i + 1;
    }
    assert(a@ =~= b@);
    true
}

/// The accelerator text of a chord: `Cmd+`, `Ctrl+`, `Alt+`, `Shift+` for
/// the held modifiers, in that order, then the key's accelerator name.
pub open spec fn chord_accel_spec(c: KeyChord) -> Option<Seq<char>> {
    match accel_key_spec(c.key@) {
        None => None,
        Some(k) => Some(
            (if c.command {
                "Cmd+"@
            } else {
                Seq::empty()
            }) + (if c.ctrl {
                "Ctrl+"@
            } else {
                Seq::empty()
            }) + (if c.alt {
                "Alt+"@
            } else {
                Seq::empty()
            }) + (if c.shift {
                "Shift+"@
            } else {
                Seq::empty()
            }) + k,
        ),
    }
}

/// The first keymap entry bound to `command`, if any.
pub open spec fn first_binding(keymap: Seq<(KeyChord, Command)>, command: Command) -> Option<int> {
    if exists|i: int| 0 <= i < keymap.len() && (#[trigger] keymap[i]).1@ == command@ {
        Some(
            choose|i: int|
                0 <= i < keymap.len() && keymap[i].1@ == command@ && forall|j: int|
                    0 <= j < i ==> (#[trigger] keymap[j]).1@ != command@,
        )
    } else {
        None
    }
}

/// First keymap chord for a command, as an accelerator string.
pub fn accel_for(keymap: &[(KeyChord, Command)], command: &Command) -> (r: Option<String>)
    ensures
        match first_binding(keymap@, *command) {
            None => r is None,
            Some(i) => match r {
                Some(s) => chord_accel_spec(keymap@[i].0) == Some(s@),
                None => chord_accel_spec(keymap@[i].0) is None,
            },
        },
{
    let mut i: usize = 0;
    while i < keymap.len()
        invariant
            0 <= i <= keymap@.len(),
            forall|j: int| 0 <= j < i ==> (#[trigger] keymap@[j]).1@ != command@,
        decreases keymap@.len() - i,
    {
        if command_eq(&keymap[i].1, command) {
            proof {
                let w = choose|k: int|
                    0 <= k < keymap@.len() && keymap@[k].1@ == command@ && forall|j: int|
                        0 <= j < k ==> (#[trigger] keymap@[j]).1@ != command@;
                assert(0 <= i < keymap@.len() && keymap@[i as int].1@ == command@ && forall|j: int|
                    0 <= j < i ==> (#[trigger] keymap@[j]).1@ != command@);
                if w < i {
                    assert(keymap@[w].1@ != command@);
                } else if w > i {
                    assert(keymap@[i as int].1@ != command@);
                }
            }
            return chord_accel(&keymap[i].0);
        }
        i = i + 1;
    }
    None
}

fn chord_accel(chord: &KeyChord) -> (r: Option<String>)
    ensures
        match r {
            Some(s) => chord_accel_spec(*chord) == Some(s@),
            None => chord_accel_spec(*chord) is None,
        },
{
    let key = match accel_key(chord.key.as_str()) {
        Some(k) => k,
        None => return None,
    };
    let mut out: Vec<char> = Vec::new();
    if chord.command {
        crate::text::append_str(&mut out, "Cmd+");
    }
    if chord.ctrl {
        crate::text::append_str(&mut out, "Ctrl+");
    }
    if chord.alt {
        crate::text::append_str(&mut out, "Alt+");
    }
    if chord.shift {
        crate::text::append_str(&mut out, "Shift+");
    }
    crate::text::append_str(&mut out, key.as_str());
    assert(out@ =~= chord_accel_spec(*chord)->0);
    Some(string_of(&out))
}

} // verus!
