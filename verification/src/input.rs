//! Keyboard input to PTY bytes: xterm-style escape sequences, the kitty
//! keyboard protocol's CSI u form, option-as-meta and bracketed paste.

use vstd::prelude::*;

use crate::keymap::KeyChord;
use crate::modes::{Modifiers, TermModes};
use crate::platform::Platform;
use crate::text::{
    char_is_control, char_is_digit, chars_of, is_control, is_digit, replace_all, replace_chars,
    string_of,
};

verus! {

/// A physical key, as the GUI toolkit reports it. Keys that no encoding
/// rule names are `Other`.
#[derive(Debug, Clone, Copy, PartialEq, Eq)]
pub enum KeyCode {
    ArrowDown,
    ArrowLeft,
    ArrowRight,
    ArrowUp,
    Escape,
    Tab,
    Backspace,
    Enter,
    Space,
    Insert,
    Delete,
    Home,
    End,
    PageUp,
    PageDown,
    Minus,
    OpenBracket,
    CloseBracket,
    Backslash,
    Num0,
    Num1,
    Num2,
    Num3,
    Num4,
    Num5,
    Num6,
    Num7,
    Num8,
    Num9,
    A,
    B,
    C,
    D,
    E,
    F,
    G,
    H,
    I,
    J,
    K,
    L,
    M,
    N,
    O,
    P,
    Q,
    R,
    S,
    T,
    U,
    V,
    W,
    X,
    Y,
    Z,
    F1,
    F2,
    F3,
    F4,
    F5,
    F6,
    F7,
    F8,
    F9,
    F10,
    F11,
    F12,
    /// Any other key (punctuation, F13+, media keys, …).
    Other,
}

/// Position of a letter key in the alphabet (A = 0).
pub open spec fn letter_index(key: KeyCode) -> Option<u8> {
    match key {
        KeyCode::A => Some(0u8),
        KeyCode::B => Some(1u8),
        KeyCode::C => Some(2u8),
        KeyCode::D => Some(3u8),
        KeyCode::E => Some(4u8),
        KeyCode::F => Some(5u8),
        KeyCode::G => Some(6u8),
        KeyCode::H => Some(7u8),
        KeyCode::I => Some(8u8),
        KeyCode::J => Some(9u8),
        KeyCode::K => Some(10u8),
        KeyCode::L => Some(11u8),
        KeyCode::M => Some(12u8),
        KeyCode::N => Some(13u8),
        KeyCode::O => Some(14u8),
        KeyCode::P => Some(15u8),
        KeyCode::Q => Some(16u8),
        KeyCode::R => Some(17u8),
        KeyCode::S => Some(18u8),
        KeyCode::T => Some(19u8),
        KeyCode::U => Some(20u8),
        KeyCode::V => Some(21u8),
        KeyCode::W => Some(22u8),
        KeyCode::X => Some(23u8),
        KeyCode::Y => Some(24u8),
        KeyCode::Z => Some(25u8),
        _ => None,
    }
}

/// The digit a number-row key carries.
pub open spec fn digit_value(key: KeyCode) -> Option<u8> {
    match key {
        KeyCode::Num0 => Some(0u8),
        KeyCode::Num1 => Some(1u8),
        KeyCode::Num2 => Some(2u8),
        KeyCode::Num3 => Some(3u8),
        KeyCode::Num4 => Some(4u8),
        KeyCode::Num5 => Some(5u8),
        KeyCode::Num6 => Some(6u8),
        KeyCode::Num7 => Some(7u8),
        KeyCode::Num8 => Some(8u8),
        KeyCode::Num9 => Some(9u8),
        _ => None,
    }
}

pub fn letter_of(key: KeyCode) -> (r: Option<u8>)
    ensures
        r == letter_index(key),
{
    match key {
        KeyCode::A => Some(0),
        KeyCode::B => Some(1),
        KeyCode::C => Some(2),
        KeyCode::D => Some(3),
        KeyCode::E => Some(4),
        KeyCode::F => Some(5),
        KeyCode::G => Some(6),
        KeyCode::H => Some(7),
        KeyCode::I => Some(8),
        KeyCode::J => Some(9),
        KeyCode::K => Some(10),
        KeyCode::L => Some(11),
        KeyCode::M => Some(12),
        KeyCode::N => Some(13),
        KeyCode::O => Some(14),
        KeyCode::P => Some(15),
        KeyCode::Q => Some(16),
        KeyCode::R => Some(17),
        KeyCode::S => Some(18),
        KeyCode::T => Some(19),
        KeyCode::U => Some(20),
        KeyCode::V => Some(21),
        KeyCode::W => Some(22),
        KeyCode::X => Some(23),
        KeyCode::Y => Some(24),
        KeyCode::Z => Some(25),
        _ => None,
    }
}

pub fn digit_of_key(key: KeyCode) -> (r: Option<u8>)
    ensures
        r == digit_value(key),
{
    match key {
        KeyCode::Num0 => Some(0),
        KeyCode::Num1 => Some(1),
        KeyCode::Num2 => Some(2),
        KeyCode::Num3 => Some(3),
        KeyCode::Num4 => Some(4),
        KeyCode::Num5 => Some(5),
        KeyCode::Num6 => Some(6),
        KeyCode::Num7 => Some(7),
        KeyCode::Num8 => Some(8),
        KeyCode::Num9 => Some(9),
        _ => None,
    }
}

/// Decimal digits of `n` as ASCII bytes.
pub open spec fn dec(n: nat) -> Seq<u8>
    decreases n,
{
    if n < 10 {
        seq![(n + 48) as u8]
    } else {
        dec(n / 10).push(((n % 10) + 48) as u8)
    }
}

/// Appends the decimal digits of `n`.
pub fn push_dec(out: &mut Vec<u8>, n: u64)
    ensures
        final(out)@ == old(out)@ + dec(n as nat),
    decreases n,
{
    if n >= 10 {
        push_dec(out, n / 10);
    }
    out.push(((n % 10) + 48) as u8);
    proof {
        if n < 10 {
            assert(dec(n as nat) == seq![(n + 48) as u8]);
        }
    }
    assert(final(out)@ =~= old(out)@ + dec(n as nat)) by {
        if n >= 10 {
            assert(dec(n as nat) == dec((n / 10) as nat).push(((n % 10) + 48) as u8));
        }
    }
}

/// xterm-style modifier parameter: 1 + (shift=1, alt=2, ctrl=4, meta=8).
pub open spec fn mod_param_spec(m: Modifiers) -> nat {
    1 + (if m.shift {
        1nat
    } else {
        0
    }) + (if m.alt {
        2nat
    } else {
        0
    }) + (if m.ctrl {
        4nat
    } else {
        0
    }) + (if m.mac_cmd {
        8nat
    } else {
        0
    })
}

pub fn mod_param(m: Modifiers) -> (r: u8)
    ensures
        r == mod_param_spec(m),
{
    1 + (m.shift as u8) + (if m.alt {
        2
    } else {
        0
    }) + (if m.ctrl {
        4
    } else {
        0
    }) + (if m.mac_cmd {
        8
    } else {
        0
    })
}

/// `ESC [` followed by `body`.
pub open spec fn csi_spec(body: Seq<u8>) -> Seq<u8> {
    seq![0x1bu8, 0x5bu8] + body
}

/// A vector holding `ESC [`.
pub fn csi() -> (r: Vec<u8>)
    ensures
        r@ == csi_spec(Seq::empty()),
{
    let mut v: Vec<u8> = Vec::new();
    v.push(0x1b);
    v.push(0x5b);
    assert(v@ =~= csi_spec(Seq::empty()));
    v
}

/// Kitty keyboard protocol CSI u encoding: `ESC [ code ; mod u`, with the
/// `;mod` omitted when no modifier is held.
pub open spec fn csi_u_spec(code: nat, m: Modifiers) -> Seq<u8> {
    if mod_param_spec(m) == 1 {
        csi_spec(dec(code).push(0x75u8))
    } else {
        csi_spec(dec(code).push(0x3bu8) + dec(mod_param_spec(m)).push(0x75u8))
    }
}

pub fn csi_u(code: u32, mods: Modifiers) -> (r: Vec<u8>)
    ensures
        r@ == csi_u_spec(code as nat, mods),
{
    let m = mod_param(mods);
    let mut v = csi();
    push_dec(&mut v, code as u64);
    if m == 1 {
        v.push(0x75);
        assert(v@ =~= csi_u_spec(code as nat, mods));
    } else {
        v.push(0x3b);
        push_dec(&mut v, m as u64);
        v.push(0x75);
        assert(v@ =~= csi_u_spec(code as nat, mods));
    }
    v
}

/// The name the toolkit gives a key is a single character exactly for the
/// letter and digit keys; the kitty protocol reports such a key by its
/// unshifted base character, and Space by 32. Functional keys keep their
/// legacy escapes.
pub open spec fn kitty_codepoint_spec(key: KeyCode) -> Option<nat> {
    if key is Space {
        Some(32)
    } else if letter_index(key) is Some {
        Some((97 + letter_index(key)->0) as nat)
    } else if digit_value(key) is Some {
        Some((48 + digit_value(key)->0) as nat)
    } else {
        None
    }
}

pub fn kitty_codepoint(key: KeyCode) -> (r: Option<u32>)
    ensures
        match r {
            Some(c) => kitty_codepoint_spec(key) == Some(c as nat),
            None => kitty_codepoint_spec(key) is None,
        },
{
    if let KeyCode::Space = key {
        return Some(32);
    }
    if let Some(i) = letter_of(key) {
        return Some(97 + i as u32);
    }
    if let Some(d) = digit_of_key(key) {
        return Some(48 + d as u32);
    }
    None
}

/// Arrow/Home/End respecting DECCKM (application cursor keys) and modifiers
/// (`CSI 1;<mod> <ch>`).
pub open spec fn cursor_key_spec(ch: u8, m: Modifiers, mode: TermModes) -> Seq<u8> {
    if m.any_held() {
        csi_spec(seq![0x31u8, 0x3bu8] + dec(mod_param_spec(m)).push(ch))
    } else if mode.app_cursor {
        seq![0x1bu8, 0x4fu8, ch]
    } else {
        csi_spec(seq![ch])
    }
}

pub fn cursor_key(ch: u8, mods: Modifiers, mode: TermModes) -> (r: Vec<u8>)
    ensures
        r@ == cursor_key_spec(ch, mods, mode),
{
    if mods.any() {
        let mut v = csi();
        v.push(0x31);
        v.push(0x3b);
        push_dec(&mut v, mod_param(mods) as u64);
        v.push(ch);
        assert(v@ =~= cursor_key_spec(ch, mods, mode));
        v
    } else if mode.app_cursor {
        let mut v: Vec<u8> = Vec::new();
        v.push(0x1b);
        v.push(0x4f);
        v.push(ch);
        assert(v@ =~= cursor_key_spec(ch, mods, mode));
        v
    } else {
        let mut v = csi();
        v.push(ch);
        assert(v@ =~= cursor_key_spec(ch, mods, mode));
        v
    }
}

/// Tilde-coded keys (Insert/Delete/PgUp/PgDn/F5+) with modifier support.
pub open spec fn tilde_key_spec(num: u8, m: Modifiers) -> Seq<u8> {
    if m.any_held() {
        csi_spec(dec(num as nat).push(0x3bu8) + dec(mod_param_spec(m)).push(0x7eu8))
    } else {
        csi_spec(dec(num as nat).push(0x7eu8))
    }
}

pub fn tilde_key(num: u8, mods: Modifiers) -> (r: Vec<u8>)
    ensures
        r@ == tilde_key_spec(num, mods),
{
    let mut v = csi();
    push_dec(&mut v, num as u64);
    if mods.any() {
        v.push(0x3b);
        push_dec(&mut v, mod_param(mods) as u64);
        v.push(0x7e);
    } else {
        v.push(0x7e);
    }
    assert(v@ =~= tilde_key_spec(num, mods));
    v
}

/// F1-F4 are SS3-coded when unmodified (`ESC O P..S`) and CSI-coded with a
/// modifier parameter otherwise (`ESC [ 1;<mod> P..S`), as in xterm.
pub open spec fn function_key_1_to_4_spec(ch: u8, m: Modifiers) -> Seq<u8> {
    if m.any_held() {
        csi_spec(seq![0x31u8, 0x3bu8] + dec(mod_param_spec(m)).push(ch))
    } else {
        seq![0x1bu8, 0x4fu8, ch]
    }
}

pub fn function_key_1_to_4(ch: u8, mods: Modifiers) -> (r: Vec<u8>)
    ensures
        r@ == function_key_1_to_4_spec(ch, mods),
{
    if mods.any() {
        let mut v = csi();
        v.push(0x31);
        v.push(0x3b);
        push_dec(&mut v, mod_param(mods) as u64);
        v.push(ch);
        assert(v@ =~= function_key_1_to_4_spec(ch, mods));
        v
    } else {
        let mut v: Vec<u8> = Vec::new();
        v.push(0x1b);
        v.push(0x4f);
        v.push(ch);
        assert(v@ =~= function_key_1_to_4_spec(ch, mods));
        v
    }
}

/// Drop the Cmd/Meta bits before computing an xterm modifier parameter.
pub open spec fn strip_meta_spec(m: Modifiers) -> Modifiers {
    Modifiers { command: false, mac_cmd: false, ..m }
}

pub fn strip_meta(m: Modifiers) -> (r: Modifiers)
    ensures
        r == strip_meta_spec(m),
{
    Modifiers { command: false, mac_cmd: false, ..m }
}

/// Arrows, with xterm's platform special case: alt+←/→ is the readline
/// word jump (`ESC b` / `ESC f`) on macOS and ctrl+←/→ elsewhere.
pub open spec fn arrow_key_spec(ch: u8, m: Modifiers, mode: TermModes, platform: Platform) -> Seq<
    u8,
> {
    let s = strip_meta_spec(m);
    if s.alt && !s.ctrl && !s.shift && (ch == 0x43u8 || ch == 0x44u8) {
        if platform.is_mac() {
            seq![0x1bu8, if ch == 0x44u8 {
                0x62u8
            } else {
                0x66u8
            }]
        } else {
            cursor_key_spec(ch, Modifiers { alt: false, ctrl: true, ..s }, mode)
        }
    } else {
        cursor_key_spec(ch, s, mode)
    }
}

pub fn arrow_key(ch: u8, mods: Modifiers, mode: TermModes, platform: Platform) -> (r: Vec<u8>)
    ensures
        r@ == arrow_key_spec(ch, mods, mode, platform),
{
    let s = strip_meta(mods);
    if s.alt && !s.ctrl && !s.shift && (ch == 0x43 || ch == 0x44) {
        if platform.is_macos() {
            let mut v: Vec<u8> = Vec::new();
            v.push(0x1b);
            v.push(
                if ch == 0x44 {
                    0x62
                } else {
                    0x66
                },
            );
            assert(v@ =~= arrow_key_spec(ch, mods, mode, platform));
            return v;
        }
        let ctrl_only = Modifiers { alt: false, ctrl: true, ..s };
        return cursor_key(ch, ctrl_only, mode);
    }
    cursor_key(ch, s, mode)
}

/// The kitty-protocol encoding a key takes while "disambiguate escape
/// codes" is on, when it takes one: Esc always, Enter/Tab/Backspace when
/// modified, and any ctrl-modified key with a kitty codepoint.
pub open spec fn kitty_key_spec(key: KeyCode, m: Modifiers) -> Option<Seq<u8>> {
    match key {
        KeyCode::Escape => Some(csi_u_spec(27, m)),
        KeyCode::Enter if m.any_held() => Some(csi_u_spec(13, m)),
        KeyCode::Tab if m.any_held() => Some(csi_u_spec(9, m)),
        KeyCode::Backspace if m.any_held() => Some(csi_u_spec(127, m)),
        _ => if m.ctrl && kitty_codepoint_spec(key) is Some {
            Some(csi_u_spec(kitty_codepoint_spec(key)->0, m))
        } else {
            None
        },
    }
}

/// The C0 control byte ctrl+key produces (ctrl+c = 0x03, ctrl+[ = ESC, …),
/// including xterm's non-letter ctrl mappings.
pub open spec fn ctrl_byte_spec(key: KeyCode, m: Modifiers) -> Option<u8> {
    if letter_index(key) is Some {
        Some((letter_index(key)->0 + 1) as u8)
    } else {
        match key {
            KeyCode::OpenBracket => Some(0x1bu8),
            KeyCode::Backslash => Some(0x1cu8),
            KeyCode::CloseBracket => Some(0x1du8),
            KeyCode::Space => Some(0x00u8),
            KeyCode::Minus => if m.shift {
                Some(0x1fu8)
            } else {
                None
            },
            KeyCode::Num2 => if m.shift {
                Some(0x00u8)
            } else {
                None
            },
            KeyCode::Num3 => Some(0x1bu8),
            KeyCode::Num4 => Some(0x1cu8),
            KeyCode::Num5 => Some(0x1du8),
            KeyCode::Num6 => Some(0x1eu8),
            KeyCode::Num7 => Some(0x1fu8),
            KeyCode::Num8 => Some(0x7fu8),
            _ => None,
        }
    }
}

/// The legacy (xterm) encoding of a non-text key.
pub open spec fn legacy_key_spec(key: KeyCode, m: Modifiers, mode: TermModes, platform: Platform) -> Option<
    Seq<u8>,
> {
    match key {
        KeyCode::Enter => if m.shift || m.alt {
            Some(seq![0x1bu8, 0x0du8])
        } else {
            Some(seq![0x0du8])
        },
        KeyCode::Backspace => if m.alt {
            Some(seq![0x1bu8, 0x7fu8])
        } else if m.shift {
            Some(seq![0x08u8])
        } else {
            Some(seq![0x7fu8])
        },
        KeyCode::Tab => if m.shift {
            Some(csi_spec(seq![0x5au8]))
        } else {
            Some(seq![0x09u8])
        },
        KeyCode::Escape => if m.alt {
            Some(seq![0x1bu8, 0x1bu8])
        } else {
            Some(seq![0x1bu8])
        },
        KeyCode::ArrowUp => Some(arrow_key_spec(0x41u8, m, mode, platform)),
        KeyCode::ArrowDown => Some(arrow_key_spec(0x42u8, m, mode, platform)),
        KeyCode::ArrowRight => Some(arrow_key_spec(0x43u8, m, mode, platform)),
        KeyCode::ArrowLeft => Some(arrow_key_spec(0x44u8, m, mode, platform)),
        KeyCode::Home => Some(cursor_key_spec(0x48u8, strip_meta_spec(m), mode)),
        KeyCode::End => Some(cursor_key_spec(0x46u8, strip_meta_spec(m), mode)),
        KeyCode::Insert => Some(tilde_key_spec(2, strip_meta_spec(m))),
        KeyCode::Delete => Some(tilde_key_spec(3, strip_meta_spec(m))),
        KeyCode::PageUp => Some(tilde_key_spec(5, strip_meta_spec(m))),
        KeyCode::PageDown => Some(tilde_key_spec(6, strip_meta_spec(m))),
        KeyCode::F1 => Some(function_key_1_to_4_spec(0x50u8, strip_meta_spec(m))),
        KeyCode::F2 => Some(function_key_1_to_4_spec(0x51u8, strip_meta_spec(m))),
        KeyCode::F3 => Some(function_key_1_to_4_spec(0x52u8, strip_meta_spec(m))),
        KeyCode::F4 => Some(function_key_1_to_4_spec(0x53u8, strip_meta_spec(m))),
        KeyCode::F5 => Some(tilde_key_spec(15, strip_meta_spec(m))),
        KeyCode::F6 => Some(tilde_key_spec(17, strip_meta_spec(m))),
        KeyCode::F7 => Some(tilde_key_spec(18, strip_meta_spec(m))),
        KeyCode::F8 => Some(tilde_key_spec(19, strip_meta_spec(m))),
        KeyCode::F9 => Some(tilde_key_spec(20, strip_meta_spec(m))),
        KeyCode::F10 => Some(tilde_key_spec(21, strip_meta_spec(m))),
        KeyCode::F11 => Some(tilde_key_spec(23, strip_meta_spec(m))),
        KeyCode::F12 => Some(tilde_key_spec(24, strip_meta_spec(m))),
        _ => None,
    }
}

/// What a non-text key press sends to the PTY, if anything: nothing while ⌘
/// is held (app shortcuts on macOS); the kitty form while the protocol asks
/// for it; a C0 byte for ctrl (without alt) keys that have one; otherwise
/// the legacy escape.
pub open spec fn encode_key_spec(key: KeyCode, m: Modifiers, mode: TermModes, platform: Platform) -> Option<
    Seq<u8>,
> {
    if m.mac_cmd || (m.command && platform.is_mac()) {
        None
    } else if mode.disambiguate_esc_codes && kitty_key_spec(key, m) is Some {
        kitty_key_spec(key, m)
    } else if m.ctrl && !m.alt && ctrl_byte_spec(key, m) is Some {
        Some(seq![ctrl_byte_spec(key, m)->0])
    } else {
        legacy_key_spec(key, m, mode, platform)
    }
}

fn kitty_key(key: KeyCode, mods: Modifiers) -> (r: Option<Vec<u8>>)
    ensures
        match r {
            Some(v) => kitty_key_spec(key, mods) == Some(v@),
            None => kitty_key_spec(key, mods) is None,
        },
{
    match key {
        KeyCode::Escape => Some(csi_u(27, mods)),
        KeyCode::Enter if mods.any() => Some(csi_u(13, mods)),
        KeyCode::Tab if mods.any() => Some(csi_u(9, mods)),
        KeyCode::Backspace if mods.any() => Some(csi_u(127, mods)),
        _ => {
            if mods.ctrl {
                if let Some(cp) = kitty_codepoint(key) {
                    return Some(csi_u(cp, mods));
                }
            }
            None
        },
    }
}

fn ctrl_byte(key: KeyCode, mods: Modifiers) -> (r: Option<u8>)
    ensures
        r == ctrl_byte_spec(key, mods),
{
    if let Some(i) = letter_of(key) {
        return Some(i + 1);
    }
    match key {
        KeyCode::OpenBracket => Some(0x1b),
        KeyCode::Backslash => Some(0x1c),
        KeyCode::CloseBracket => Some(0x1d),
        KeyCode::Space => Some(0x00),
        // xterm's non-letter ctrl mappings: ctrl+_ is readline's undo,
        // ctrl+8 is DEL.
        KeyCode::Minus => if mods.shift {
            Some(0x1f)
        } else {
            None
        },
        KeyCode::Num2 => if mods.shift {
            Some(0x00)
        } else {
            None
        },
        KeyCode::Num3 => Some(0x1b),
        KeyCode::Num4 => Some(0x1c),
        KeyCode::Num5 => Some(0x1d),
        KeyCode::Num6 => Some(0x1e),
        KeyCode::Num7 => Some(0x1f),
        KeyCode::Num8 => Some(0x7f),
        _ => None,
    }
}

fn bytes2(a: u8, b: u8) -> (r: Vec<u8>)
    ensures
        r@ == seq![a, b],
{
    let mut v: Vec<u8> = Vec::new();
    v.push(a);
    v.push(b);
    assert(v@ =~= seq![a, b]);
    v
}

fn bytes1(a: u8) -> (r: Vec<u8>)
    ensures
        r@ == seq![a],
{
    let mut v: Vec<u8> = Vec::new();
    v.push(a);
    assert(v@ =~= seq![a]);
    v
}

fn legacy_key(key: KeyCode, mods: Modifiers, mode: TermModes, platform: Platform) -> (r: Option<
    Vec<u8>,
>)
    ensures
        match r {
            Some(v) => legacy_key_spec(key, mods, mode, platform) == Some(v@),
            None => legacy_key_spec(key, mods, mode, platform) is None,
        },
{
    let s = strip_meta(mods);
    match key {
        // alt+enter is xterm's `ESC CR`; shift+enter deliberately sends
        // the same meta-enter (what REPLs treat as newline-insert).
        KeyCode::Enter => if mods.shift || mods.alt {
            Some(bytes2(0x1b, 0x0d))
        } else {
            Some(bytes1(0x0d))
        },
        // shift→BS (0x08), alt→ESC DEL, otherwise DEL (0x7f).
        KeyCode::Backspace => if mods.alt {
            Some(bytes2(0x1b, 0x7f))
        } else if mods.shift {
            Some(bytes1(0x08))
        } else {
            Some(bytes1(0x7f))
        },
        KeyCode::Tab => if mods.shift {
            let mut v = csi();
            v.push(0x5a);
            assert(v@ =~= csi_spec(seq![0x5au8]));
            Some(v)
        } else {
            Some(bytes1(0x09))
        },
        // alt+Escape is ESC ESC in xterm.
        KeyCode::Escape => if mods.alt {
            Some(bytes2(0x1b, 0x1b))
        } else {
            Some(bytes1(0x1b))
        },
        KeyCode::ArrowUp => Some(arrow_key(0x41, mods, mode, platform)),
        KeyCode::ArrowDown => Some(arrow_key(0x42, mods, mode, platform)),
        KeyCode::ArrowRight => Some(arrow_key(0x43, mods, mode, platform)),
        KeyCode::ArrowLeft => Some(arrow_key(0x44, mods, mode, platform)),
        KeyCode::Home => Some(cursor_key(0x48, s, mode)),
        KeyCode::End => Some(cursor_key(0x46, s, mode)),
        KeyCode::Insert => Some(tilde_key(2, s)),
        KeyCode::Delete => Some(tilde_key(3, s)),
        KeyCode::PageUp => Some(tilde_key(5, s)),
        KeyCode::PageDown => Some(tilde_key(6, s)),
        // F-keys keep every modifier: ctrl+F5 is `ESC[15;5~`.
        KeyCode::F1 => Some(function_key_1_to_4(0x50, s)),
        KeyCode::F2 => Some(function_key_1_to_4(0x51, s)),
        KeyCode::F3 => Some(function_key_1_to_4(0x52, s)),
        KeyCode::F4 => Some(function_key_1_to_4(0x53, s)),
        KeyCode::F5 => Some(tilde_key(15, s)),
        KeyCode::F6 => Some(tilde_key(17, s)),
        KeyCode::F7 => Some(tilde_key(18, s)),
        KeyCode::F8 => Some(tilde_key(19, s)),
        KeyCode::F9 => Some(tilde_key(20, s)),
        KeyCode::F10 => Some(tilde_key(21, s)),
        KeyCode::F11 => Some(tilde_key(23, s)),
        KeyCode::F12 => Some(tilde_key(24, s)),
        _ => None,
    }
}

/// Encode a non-text key press to PTY bytes. Returns None when the key
/// produces no bytes itself (printables arrive as text).
pub fn encode_key(key: KeyCode, mods: Modifiers, mode: TermModes, platform: Platform) -> (r: Option<
    Vec<u8>,
>)
    ensures
        match r {
            Some(v) => encode_key_spec(key, mods, mode, platform) == Some(v@),
            None => encode_key_spec(key, mods, mode, platform) is None,
        },
{
    // cmd-modified keys are app shortcuts on macOS, never terminal input.
    if mods.mac_cmd || (mods.command && platform.is_macos()) {
        return None;
    }
    // Kitty keyboard protocol, "disambiguate escape codes" level: Esc and
    // any modified Enter/Tab/Backspace/ctrl-key arrive as CSI u.
    if mode.disambiguate_esc_codes {
        if let Some(v) = kitty_key(key, mods) {
            return Some(v);
        }
    }
    // Ctrl+letter → C0 control byte (ctrl+c = 0x03 etc.).
    if mods.ctrl && !mods.alt {
        if let Some(byte) = ctrl_byte(key, mods) {
            return Some(bytes1(byte));
        }
    }
    legacy_key(key, mods, mode, platform)
}

/// modifierKeys.altIsMeta: what option+key sends instead of the composed
/// character — ESC and the base character (upper case with shift), or its
/// CSI u form while the kitty protocol is active. Letters and digits only.
pub open spec fn alt_meta_spec(key: KeyCode, m: Modifiers, mode: TermModes) -> Option<Seq<u8>> {
    let base: Option<(u8, u8)> = if letter_index(key) is Some {
        let i = letter_index(key)->0;
        Some(
            (
                if m.shift {
                    (65 + i) as u8
                } else {
                    (97 + i) as u8
                },
                (97 + i) as u8,
            ),
        )
    } else if digit_value(key) is Some {
        Some(((48 + digit_value(key)->0) as u8, (48 + digit_value(key)->0) as u8))
    } else {
        None
    };
    match base {
        None => None,
        Some((ch, lower)) => if mode.disambiguate_esc_codes {
            Some(csi_u_spec(lower as nat, m))
        } else {
            Some(seq![0x1bu8, ch])
        },
    }
}

pub fn alt_meta_bytes(key: KeyCode, mods: Modifiers, mode: TermModes) -> (r: Option<Vec<u8>>)
    ensures
        match r {
            Some(v) => alt_meta_spec(key, mods, mode) == Some(v@),
            None => alt_meta_spec(key, mods, mode) is None,
        },
{
    let (ch, lower): (u8, u8) = if let Some(i) = letter_of(key) {
        (
            if mods.shift {
                65 + i
            } else {
                97 + i
            },
            97 + i,
        )
    } else if let Some(d) = digit_of_key(key) {
        (48 + d, 48 + d)
    } else {
        return None;
    };
    if mode.disambiguate_esc_codes {
        return Some(csi_u(lower as u32, mods));
    }
    Some(bytes2(0x1b, ch))
}

/// Is `name` a function-key name in mousetrap spelling ("f1".."f19")?
pub open spec fn is_function_key_spec(name: Seq<char>) -> bool {
    name.len() >= 2 && name[0] == 'f' && (forall|i: int|
        1 <= i < name.len() ==> is_digit(#[trigger] name[i]))
}

pub fn is_function_key(name: &[char]) -> (r: bool)
    ensures
        r == is_function_key_spec(name@),
{
    if name.len() < 2 || name[0] != 'f' {
        return false;
    }
    let mut i: usize = 1;
    while i < name.len()
        invariant
            name@.len() >= 2,
            1 <= i <= name@.len(),
            forall|j: int| 1 <= j < i ==> is_digit(#[trigger] name@[j]),
        decreases name@.len() - i,
    {
        if !char_is_digit(name[i]) {
            return false;
        }
        i = i + 1;
    }
    true
}

/// Does the pressed modifier set match what the binding asks for, exactly?
///
/// Mousetrap compared the full modifier list, so `cmd+w` never fired on
/// `cmd+shift+w`. A Meta binding is only bindable on macOS; off macOS the
/// toolkit reports Ctrl in both `ctrl` and `command`, so `ctrl` is compared.
pub open spec fn chord_matches_spec(chord: KeyChord, pressed: Modifiers, platform: Platform) -> bool {
    &&& pressed.alt == chord.alt
    &&& pressed.shift == chord.shift
    &&& pressed.ctrl == chord.ctrl
    &&& pressed.mac_cmd == (platform.is_mac() && chord.command)
}

pub fn chord_matches(chord: &KeyChord, pressed: Modifiers, platform: Platform) -> (r: bool)
    ensures
        r == chord_matches_spec(*chord, pressed, platform),
{
    let want_cmd = platform.is_macos() && chord.command;
    let want_ctrl = chord.ctrl;
    pressed.alt == chord.alt && pressed.shift == chord.shift && pressed.ctrl == want_ctrl
        && pressed.mac_cmd == want_cmd
}

/// Meta bindings can't be expressed on platforms without a ⌘ key: treating
/// Meta as Ctrl would hijack unrelated bindings (a `command+c` entry would
/// eat Ctrl+C). Such a binding simply doesn't fire.
pub fn chord_is_bindable(chord: &KeyChord, platform: Platform) -> (r: bool)
    ensures
        r == (!chord.command || platform.is_mac()),
{
    if chord.command && !platform.is_macos() {
        return false;
    }
    true
}

/// Options affecting key encoding, from the resolved profile config.
#[derive(Clone, Copy, Debug, Default)]
pub struct KeyOptions {
    /// modifierKeys.altIsMeta — send ESC+char for option-modified keys.
    pub alt_is_meta: bool,
}

/// Pasted text as the shell receives it: `\r\n` and `\n` become `\r`, and
/// control characters other than CR and tab are dropped.
pub open spec fn clean_paste(text: Seq<char>) -> Seq<char> {
    keep_pasteable(replace_all(replace_all(text, seq!['\r', '\n'], seq!['\r']), seq!['\n'], seq!['\r']))
}

/// A character a paste may carry to the shell.
pub open spec fn pasteable(c: char) -> bool {
    c == '\r' || c == '\t' || !is_control(c)
}

/// The pasteable characters of `s`, in order.
pub open spec fn keep_pasteable(s: Seq<char>) -> Seq<char>
    decreases s.len(),
{
    if s.len() == 0 {
        s
    } else if pasteable(s.last()) {
        keep_pasteable(s.drop_last()).push(s.last())
    } else {
        keep_pasteable(s.drop_last())
    }
}

/// The bytes of a paste: the cleaned text in UTF-8, wrapped in the
/// bracketed-paste markers when the application enabled them.
pub open spec fn paste_spec(text: Seq<char>, mode: TermModes) -> Seq<u8> {
    let body = vstd::utf8::encode_utf8(clean_paste(text));
    if mode.bracketed_paste {
        seq![0x1bu8, 0x5bu8, 0x32u8, 0x30u8, 0x30u8, 0x7eu8] + body + seq![
            0x1bu8,
            0x5bu8,
            0x32u8,
            0x30u8,
            0x31u8,
            0x7eu8,
        ]
    } else {
        body
    }
}

/// Sanitize pasted text and wrap it in bracketed-paste markers when the
/// application enabled them.
pub fn encode_paste(text: &str, mode: TermModes) -> (r: Vec<u8>)
    ensures
        r@ == paste_spec(text@, mode),
{
    let raw = chars_of(text);
    let crlf = vec!['\r', '\n'];
    let cr = vec!['\r'];
    let lf = vec!['\n'];
    let step1 = replace_chars(&raw, &crlf, &cr);
    let step2 = replace_chars(&step1, &lf, &cr);
    let mut clean: Vec<char> = Vec::new();
    let mut i: usize = 0;
    while i < step2.len()
        invariant
            0 <= i <= step2@.len(),
            clean@ == keep_pasteable(step2@.subrange(0, i as int)),
        decreases step2@.len() - i,
    {
        let c = step2[i];
        let ghost before = clean@;
        let ghost ss = step2@.subrange(0, i + 1);
        proof {
            assert(ss.drop_last() =~= step2@.subrange(0, i as int));
            assert(ss.last() == c);
            assert(keep_pasteable(ss) == (if pasteable(c) {
                before.push(c)
            } else {
                before
            }));
        }
        if c == '\r' || c == '\t' || !char_is_control(c) {
            clean.push(c);
        }
        i = i + 1;
    }
    assert(step2@.subrange(0, step2@.len() as int) =~= step2@);
    assert(crlf@ =~= seq!['\r', '\n']);
    assert(cr@ =~= seq!['\r']);
    assert(lf@ =~= seq!['\n']);
    let s = string_of(&clean);
    let body = vstd::slice::slice_to_vec(s.as_str().as_bytes());
    if mode.bracketed_paste {
        let mut out: Vec<u8> = vec![0x1b, 0x5b, 0x32, 0x30, 0x30, 0x7e];
        let mut tail: Vec<u8> = vec![0x1b, 0x5b, 0x32, 0x30, 0x31, 0x7e];
        let mut b = body;
        out.append(&mut b);
        out.append(&mut tail);
        out
    } else {
        body
    }
}

/// One input event of a frame, as the focused terminal pane receives it.
#[derive(Debug, Clone, PartialEq, Eq)]
pub enum PaneEvent {
    /// Text the keyboard produced (including AltGr compositions).
    Text(String),
    Key { key: KeyCode, pressed: bool, mods: Modifiers },
    Paste(String),
    Copy,
    /// Anything the pane does not handle.
    Other,
}

/// What the pane does with one event.
#[derive(Debug, Clone, PartialEq, Eq)]
pub enum PaneAction {
    /// Send these bytes to the PTY.
    Write(Vec<u8>),
    /// Scroll the scrollback by a page.
    ScrollPageUp,
    ScrollPageDown,
    /// Put the selection on the clipboard.
    CopySelection,
    Ignore,
}

/// A [`PaneAction`] with its bytes as a sequence.
pub enum PaneActionView {
    Write(Seq<u8>),
    ScrollPageUp,
    ScrollPageDown,
    CopySelection,
    Ignore,
}

impl View for PaneAction {
    type V = PaneActionView;

    open spec fn view(&self) -> PaneActionView {
        match self {
            PaneAction::Write(b) => PaneActionView::Write(b@),
            PaneAction::ScrollPageUp => PaneActionView::ScrollPageUp,
            PaneAction::ScrollPageDown => PaneActionView::ScrollPageDown,
            PaneAction::CopySelection => PaneActionView::CopySelection,
            PaneAction::Ignore => PaneActionView::Ignore,
        }
    }
}

/// What holds for the whole frame: the modifiers held, the option-as-meta
/// setting, whether AltGr composed a character this frame, the terminal's
/// modes and the platform.
#[derive(Debug, Clone, Copy)]
pub struct FrameKeys {
    pub mods: Modifiers,
    pub alt_is_meta: bool,
    pub altgr_composed: bool,
    pub mode: TermModes,
    pub platform: Platform,
}

/// A key press: shift+PageUp/PageDown scroll the scrollback; a ctrl+alt
/// chord that AltGr already turned into text sends nothing more; option as
/// meta sends its meta form for letters and digits; anything else is
/// encoded, when it encodes to anything.
pub open spec fn key_action_spec(key: KeyCode, pressed: bool, m: Modifiers, f: FrameKeys) -> PaneActionView {
    if !pressed {
        PaneActionView::Ignore
    } else if m.shift && !m.ctrl && !m.alt && key == KeyCode::PageUp {
        PaneActionView::ScrollPageUp
    } else if m.shift && !m.ctrl && !m.alt && key == KeyCode::PageDown {
        PaneActionView::ScrollPageDown
    } else if f.altgr_composed && m.ctrl && m.alt {
        PaneActionView::Ignore
    } else if f.alt_is_meta && m.alt && !m.mac_cmd && !m.ctrl && alt_meta_spec(key, m, f.mode) is Some {
        PaneActionView::Write(alt_meta_spec(key, m, f.mode)->0)
    } else {
        match encode_key_spec(key, m, f.mode, f.platform) {
            Some(b) => PaneActionView::Write(b),
            None => PaneActionView::Ignore,
        }
    }
}

/// An event of the focused pane. Text goes to the PTY in UTF-8 unless
/// command is held (a shortcut) or option is claimed as meta (plain alt,
/// not ctrl+alt, which is AltGr).
pub open spec fn pane_action_spec(e: PaneEvent, f: FrameKeys) -> PaneActionView {
    match e {
        PaneEvent::Text(t) => if !f.mods.mac_cmd && !(f.alt_is_meta && f.mods.alt && !f.mods.ctrl) {
            PaneActionView::Write(vstd::utf8::encode_utf8(t@))
        } else {
            PaneActionView::Ignore
        },
        PaneEvent::Key { key, pressed, mods } => key_action_spec(key, pressed, mods, f),
        PaneEvent::Paste(t) => PaneActionView::Write(paste_spec(t@, f.mode)),
        PaneEvent::Copy => PaneActionView::CopySelection,
        PaneEvent::Other => PaneActionView::Ignore,
    }
}

/// Decide what the focused pane does with one event of the frame.
pub fn pane_action(e: &PaneEvent, f: FrameKeys) -> (r: PaneAction)
    ensures
        r@ == pane_action_spec(*e, f),
{
    match e {
        PaneEvent::Text(t) => {
            if !f.mods.mac_cmd && !(f.alt_is_meta && f.mods.alt && !f.mods.ctrl) {
                PaneAction::Write(vstd::slice::slice_to_vec(t.as_str().as_bytes()))
            } else {
                PaneAction::Ignore
            }
        },
        PaneEvent::Key { key, pressed, mods } => {
            let m = *mods;
            if !*pressed {
                return PaneAction::Ignore;
            }
            if m.shift && !m.ctrl && !m.alt {
                match key {
                    KeyCode::PageUp => {
                        return PaneAction::ScrollPageUp;
                    },
                    KeyCode::PageDown => {
                        return PaneAction::ScrollPageDown;
                    },
                    _ => {},
                }
            }
            if f.altgr_composed && m.ctrl && m.alt {
                return PaneAction::Ignore;
            }
            if f.alt_is_meta && m.alt && !m.mac_cmd && !m.ctrl {
                if let Some(bytes) = alt_meta_bytes(*key, m, f.mode) {
                    return PaneAction::Write(bytes);
                }
            }
            match encode_key(*key, m, f.mode, f.platform) {
                Some(bytes) => PaneAction::Write(bytes),
                None => PaneAction::Ignore,
            }
        },
        PaneEvent::Paste(t) => PaneAction::Write(encode_paste(t.as_str(), f.mode)),
        PaneEvent::Copy => PaneAction::CopySelection,
        PaneEvent::Other => PaneAction::Ignore,
    }
}

/// A pointer button as the GUI toolkit names it.
#[derive(Debug, Clone, Copy, PartialEq, Eq, Structural)]
pub enum PointerButton {
    Primary,
    Secondary,
    Middle,
    Extra1,
    Extra2,
}

/// A pointer button going down or up, with the modifiers held.
#[derive(Debug, Clone, Copy, PartialEq, Eq)]
pub struct ButtonEvent {
    pub button: PointerButton,
    pub pressed: bool,
    pub modifiers: Modifiers,
}

/// One event through the ctrl-click rewrite, with the press state carried
/// to the next: a primary press with ctrl (and neither ⌘ nor the command
/// modifier) becomes a secondary press without ctrl; the next primary
/// release after such a press becomes a secondary release, even if ctrl was
/// lifted meanwhile. Everything else passes through.
pub open spec fn ctrl_click_step(e: ButtonEvent, converted: bool) -> (ButtonEvent, bool) {
    if e.button != PointerButton::Primary {
        (e, converted)
    } else if e.pressed && e.modifiers.ctrl && !e.modifiers.command && !e.modifiers.mac_cmd {
        (ButtonEvent { button: PointerButton::Secondary, modifiers: Modifiers { ctrl: false, ..e.modifiers }, ..e }, true)
    } else if !e.pressed && converted {
        (ButtonEvent { button: PointerButton::Secondary, modifiers: Modifiers { ctrl: false, ..e.modifiers }, ..e }, false)
    } else {
        (e, converted)
    }
}

/// The events after the rewrite, in order, and the state after the last.
pub open spec fn ctrl_click_fold(events: Seq<ButtonEvent>, converted: bool) -> (Seq<ButtonEvent>, bool)
    decreases events.len(),
{
    if events.len() == 0 {
        (events, converted)
    } else {
        let (before, c) = ctrl_click_fold(events.drop_last(), converted);
        let (e, c2) = ctrl_click_step(events.last(), c);
        (before.push(e), c2)
    }
}

/// macOS convention: ctrl+primary-click is a secondary click (as in Finder,
/// iTerm2 and kitty). The windowing layer reports it as a plain left click
/// with ctrl held, so the events are rewritten before the UI sees them;
/// `converted` carries a converted press to its release.
pub fn rewrite_ctrl_click_as_secondary(events: &mut Vec<ButtonEvent>, converted: &mut bool)
    ensures
        (final(events)@, *final(converted)) == ctrl_click_fold(old(events)@, *old(converted)),
{
    let ghost e0 = events@;
    let ghost c0 = *converted;
    let mut i: usize = 0;
    while i < events.len()
        invariant
            0 <= i <= events@.len(),
            events@.len() == e0.len(),
            forall|j: int| i <= j < e0.len() ==> #[trigger] events@[j] == e0[j],
            (events@.take(i as int), *converted) == ctrl_click_fold(e0.take(i as int), c0),
        decreases events@.len() - i,
    {
        let e = events[i];
        let mut out = e;
        if e.button == PointerButton::Primary {
            if e.pressed && e.modifiers.ctrl && !e.modifiers.command && !e.modifiers.mac_cmd {
                out.button = PointerButton::Secondary;
                out.modifiers.ctrl = false;
                *converted = true;
            } else if !e.pressed && *converted {
                out.button = PointerButton::Secondary;
                out.modifiers.ctrl = false;
                *converted = false;
            }
        }
        events.set(i, out);
        proof {
            assert(e0.take(i + 1).drop_last() =~= e0.take(i as int));
            assert(e0.take(i + 1).last() == e);
            assert(events@.take(i + 1) =~= events@.take(i as int).push(out));
        }
        i = i + 1;
    }
    assert(e0.take(i as int) =~= e0);
    assert(events@.take(i as int) =~= events@);
}

/// Page Up and Page Down: whenever a key press encodes at all, the two keys
/// send different bytes (`ESC [ 5` and `ESC [ 6` respectively, then any
/// modifier parameter and `~`), and with no modifier held Page Down is
/// exactly `ESC [ 6 ~`.
pub proof fn law_page_keys(m: Modifiers, mode: TermModes, platform: Platform)
    ensures
        encode_key_spec(KeyCode::PageUp, m, mode, platform) is Some <==> encode_key_spec(
            KeyCode::PageDown,
            m,
            mode,
            platform,
        ) is Some,
        encode_key_spec(KeyCode::PageUp, m, mode, platform) is Some ==> {
            let up = encode_key_spec(KeyCode::PageUp, m, mode, platform)->0;
            let down = encode_key_spec(KeyCode::PageDown, m, mode, platform)->0;
            &&& up.len() >= 4 && down.len() >= 4
            &&& up.subrange(0, 3) == seq![0x1bu8, 0x5bu8, 0x35u8]
            &&& down.subrange(0, 3) == seq![0x1bu8, 0x5bu8, 0x36u8]
            &&& up.last() == 0x7eu8 && down.last() == 0x7eu8
            &&& up != down
        },
        !m.shift && !m.alt && !m.ctrl && !m.mac_cmd && !m.command ==> encode_key_spec(
            KeyCode::PageDown,
            m,
            mode,
            platform,
        ) == Some(seq![0x1bu8, 0x5bu8, 0x36u8, 0x7eu8]),
{
    assert(kitty_codepoint_spec(KeyCode::PageUp) is None);
    assert(kitty_codepoint_spec(KeyCode::PageDown) is None);
    assert(kitty_key_spec(KeyCode::PageUp, m) is None);
    assert(kitty_key_spec(KeyCode::PageDown, m) is None);
    assert(ctrl_byte_spec(KeyCode::PageUp, m) is None);
    assert(ctrl_byte_spec(KeyCode::PageDown, m) is None);
    let s = strip_meta_spec(m);
    assert(dec(5) == seq![0x35u8]);
    assert(dec(6) == seq![0x36u8]);
    let up = tilde_key_spec(5, s);
    let down = tilde_key_spec(6, s);
    if s.any_held() {
        let tail = seq![0x3bu8] + dec(mod_param_spec(s)).push(0x7eu8);
        assert(up =~= seq![0x1bu8, 0x5bu8, 0x35u8] + tail);
        assert(down =~= seq![0x1bu8, 0x5bu8, 0x36u8] + tail);
    } else {
        assert(up =~= seq![0x1bu8, 0x5bu8, 0x35u8, 0x7eu8]);
        assert(down =~= seq![0x1bu8, 0x5bu8, 0x36u8, 0x7eu8]);
    }
    assert(up[2] != down[2]);
}

/// Ctrl with a letter sends that letter's C0 control byte, its position in
/// the alphabet plus one (ctrl+a = 0x01 … ctrl+z = 0x1a), outside the kitty
/// protocol and unless it is a macOS command shortcut.
pub proof fn law_ctrl_letters(key: KeyCode, m: Modifiers, mode: TermModes, platform: Platform)
    requires
        letter_index(key) is Some,
        m.ctrl,
        !m.alt,
        !m.mac_cmd,
        !(m.command && platform.is_mac()),
        !mode.disambiguate_esc_codes,
    ensures
        encode_key_spec(key, m, mode, platform) == Some(seq![(letter_index(key)->0 + 1) as u8]),
        1 <= letter_index(key)->0 + 1 <= 26,
{
}

/// Unmodified arrow keys send `ESC [` (or `ESC O` in application cursor
/// mode) and then A, B, C, D for up, down, right and left: four different
/// sequences.
pub proof fn law_arrow_keys(mode: TermModes, platform: Platform)
    ensures
        ({
            let none = Modifiers { alt: false, ctrl: false, shift: false, mac_cmd: false, command: false };
            let intro: u8 = if mode.app_cursor { 0x4fu8 } else { 0x5bu8 };
            &&& encode_key_spec(KeyCode::ArrowUp, none, mode, platform) == Some(seq![0x1bu8, intro, 0x41u8])
            &&& encode_key_spec(KeyCode::ArrowDown, none, mode, platform) == Some(seq![0x1bu8, intro, 0x42u8])
            &&& encode_key_spec(KeyCode::ArrowRight, none, mode, platform) == Some(seq![0x1bu8, intro, 0x43u8])
            &&& encode_key_spec(KeyCode::ArrowLeft, none, mode, platform) == Some(seq![0x1bu8, intro, 0x44u8])
        }),
{
    let none = Modifiers { alt: false, ctrl: false, shift: false, mac_cmd: false, command: false };
    assert(strip_meta_spec(none) == none);
    assert(kitty_key_spec(KeyCode::ArrowUp, none) is None);
    assert(kitty_key_spec(KeyCode::ArrowDown, none) is None);
    assert(kitty_key_spec(KeyCode::ArrowRight, none) is None);
    assert(kitty_key_spec(KeyCode::ArrowLeft, none) is None);
    if !mode.app_cursor {
        assert(csi_spec(seq![0x41u8]) =~= seq![0x1bu8, 0x5bu8, 0x41u8]);
        assert(csi_spec(seq![0x42u8]) =~= seq![0x1bu8, 0x5bu8, 0x42u8]);
        assert(csi_spec(seq![0x43u8]) =~= seq![0x1bu8, 0x5bu8, 0x43u8]);
        assert(csi_spec(seq![0x44u8]) =~= seq![0x1bu8, 0x5bu8, 0x44u8]);
    }
}

proof fn lemma_keep_pasteable(s: Seq<char>)
    ensures
        forall|i: int| 0 <= i < keep_pasteable(s).len() ==> pasteable(#[trigger] keep_pasteable(s)[i]),
    decreases s.len(),
{
    if s.len() > 0 {
        lemma_keep_pasteable(s.drop_last());
        let k = keep_pasteable(s.drop_last());
        assert forall|i: int| 0 <= i < keep_pasteable(s).len() implies pasteable(#[trigger] keep_pasteable(s)[i]) by {
            if i < k.len() {
                assert(keep_pasteable(s)[i] == k[i]);
            }
        }
    }
}

/// A paste reaches the shell without line feeds or control characters
/// other than carriage return and tab; with bracketed paste on it is
/// wrapped in `ESC [ 200 ~` … `ESC [ 201 ~`, and without it is the cleaned
/// text alone.
pub proof fn law_paste_is_clean(text: Seq<char>, mode: TermModes)
    ensures
        forall|i: int|
            0 <= i < clean_paste(text).len() ==> {
                let c = #[trigger] clean_paste(text)[i];
                &&& c != '\n'
                &&& c == '\r' || c == '\t' || !is_control(c)
            },
        mode.bracketed_paste ==> {
            let p = paste_spec(text, mode);
            let body = vstd::utf8::encode_utf8(clean_paste(text));
            &&& p.subrange(0, 6) == seq![0x1bu8, 0x5bu8, 0x32u8, 0x30u8, 0x30u8, 0x7eu8]
            &&& p.subrange(p.len() - 6, p.len() as int) == seq![0x1bu8, 0x5bu8, 0x32u8, 0x30u8, 0x31u8, 0x7eu8]
            &&& p.subrange(6, p.len() - 6) == body
        },
        !mode.bracketed_paste ==> paste_spec(text, mode) == vstd::utf8::encode_utf8(clean_paste(text)),
{
    lemma_keep_pasteable(replace_all(replace_all(text, seq!['\r', '\n'], seq!['\r']), seq!['\n'], seq!['\r']));
    if mode.bracketed_paste {
        let p = paste_spec(text, mode);
        let body = vstd::utf8::encode_utf8(clean_paste(text));
        let a = seq![0x1bu8, 0x5bu8, 0x32u8, 0x30u8, 0x30u8, 0x7eu8];
        let z = seq![0x1bu8, 0x5bu8, 0x32u8, 0x30u8, 0x31u8, 0x7eu8];
        assert(p == a + body + z);
        assert(p.subrange(0, 6) =~= a);
        assert(p.subrange(p.len() - 6, p.len() as int) =~= z);
        assert(p.subrange(6, p.len() - 6) =~= body);
    }
}

} // verus!
