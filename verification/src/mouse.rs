//! Mouse reporting: which events an application asked for and their bytes
//! in the SGR (1006), UTF-8 (1005) and X10 encodings.

use vstd::prelude::*;

use crate::input::{dec, push_dec};
use crate::modes::{Modifiers, TermModes};

verus! {

#[derive(Clone, Copy, Debug, PartialEq, Eq, Structural)]
pub enum MouseButton {
    Left,
    Middle,
    Right,
    WheelUp,
    WheelDown,
    /// No button — motion reporting with nothing held (button code 3).
    NoButton,
}

impl MouseButton {
    pub open spec fn code_spec(self) -> u8 {
        match self {
            MouseButton::Left => 0,
            MouseButton::Middle => 1,
            MouseButton::Right => 2,
            MouseButton::WheelUp => 64,
            MouseButton::WheelDown => 65,
            MouseButton::NoButton => 3,
        }
    }

    /// The button number of the xterm mouse protocols.
    pub fn code(self) -> (r: u8)
        ensures
            r == self.code_spec(),
    {
        match self {
            MouseButton::Left => 0,
            MouseButton::Middle => 1,
            MouseButton::Right => 2,
            MouseButton::WheelUp => 64,
            MouseButton::WheelDown => 65,
            MouseButton::NoButton => 3,
        }
    }
}

/// shift = +4, alt = +8, ctrl = +16.
pub open spec fn mod_bits_spec(m: Modifiers) -> u8 {
    ((if m.shift {
        4u8
    } else {
        0u8
    }) + (if m.alt {
        8u8
    } else {
        0u8
    }) + (if m.ctrl {
        16u8
    } else {
        0u8
    })) as u8
}

pub fn mod_bits(m: Modifiers) -> (r: u8)
    ensures
        r == mod_bits_spec(m),
        r <= 28,
{
    (if m.shift {
        4
    } else {
        0
    }) + (if m.alt {
        8
    } else {
        0
    }) + (if m.ctrl {
        16
    } else {
        0
    })
}

/// A DECSET 1005 coordinate: `value + 32` (the value capped at 2015, the
/// largest that stays within two bytes) as the UTF-8 encoding of that code
/// point.
pub open spec fn utf8_coord(value: u16) -> Seq<u8> {
    let point = (if value > 2015 {
        2015nat
    } else {
        value as nat
    }) + 32;
    if point < 0x80 {
        seq![point as u8]
    } else {
        seq![(0xC0 + point / 64) as u8, (0x80 + point % 64) as u8]
    }
}

/// Appends a 1005 coordinate.
pub fn push_utf8(bytes: &mut Vec<u8>, value: u16)
    ensures
        final(bytes)@ == old(bytes)@ + utf8_coord(value),
{
    let capped: u32 = if value > 2015 {
        2015
    } else {
        value as u32
    };
    let point = capped + 32;
    if point < 0x80 {
        bytes.push(point as u8);
    } else {
        bytes.push((0xC0 + point / 64) as u8);
        bytes.push((0x80 + point % 64) as u8);
    }
    assert(final(bytes)@ =~= old(bytes)@ + utf8_coord(value));
}

/// The button code of an event: button + modifier bits, +32 for motion.
pub open spec fn event_code(button: MouseButton, motion: bool, m: Modifiers) -> nat {
    (button.code_spec() + mod_bits_spec(m) + (if motion {
        32nat
    } else {
        0
    })) as nat
}

/// The bytes reporting one mouse event in the terminal's active protocol.
///
/// SGR (`CSI < code ; col ; row M|m`) wins when enabled. Otherwise X10:
/// `CSI M`, then `32 + code` (a release is button 3), then the coordinates
/// either as UTF-8 code points (1005) or as single bytes `min(c, 223) + 32`.
pub open spec fn encode_mouse_spec(
    mode: TermModes,
    button: MouseButton,
    pressed: bool,
    motion: bool,
    m: Modifiers,
    col: u16,
    row: u16,
) -> Seq<u8> {
    let code = event_code(button, motion, m);
    if mode.sgr_mouse {
        seq![0x1bu8, 0x5bu8, 0x3cu8] + dec(code) + seq![0x3bu8] + dec(col as nat) + seq![0x3bu8]
            + dec(row as nat) + seq![
            if pressed {
                0x4du8
            } else {
                0x6du8
            },
        ]
    } else {
        let legacy = if pressed || motion {
            code
        } else {
            (3 + mod_bits_spec(m)) as nat
        };
        let head = seq![0x1bu8, 0x5bu8, 0x4du8, (32 + legacy) as u8];
        if mode.utf8_mouse {
            head + utf8_coord(col) + utf8_coord(row)
        } else {
            head + seq![
                ((if col > 223 {
                    223nat
                } else {
                    col as nat
                }) + 32) as u8,
                ((if row > 223 {
                    223nat
                } else {
                    row as nat
                }) + 32) as u8,
            ]
        }
    }
}

/// Encode a mouse event per the terminal's active protocol (SGR preferred,
/// legacy X10 otherwise). `motion` marks drag/move events (+32).
pub fn encode_mouse(
    mode: TermModes,
    button: MouseButton,
    pressed: bool,
    motion: bool,
    mods: Modifiers,
    cell: (u16, u16),
) -> (r: Vec<u8>)
    ensures
        r@ == encode_mouse_spec(mode, button, pressed, motion, mods, cell.0, cell.1),
{
    let mut code: u8 = button.code() + mod_bits(mods);
    if motion {
        code = code + 32;
    }
    let (col, row) = cell;
    if mode.sgr_mouse {
        let mut out: Vec<u8> = vec![0x1b, 0x5b, 0x3c];
        push_dec(&mut out, code as u64);
        out.push(0x3b);
        push_dec(&mut out, col as u64);
        out.push(0x3b);
        push_dec(&mut out, row as u64);
        out.push(
            if pressed {
                0x4d
            } else {
                0x6d
            },
        );
        assert(out@ =~= encode_mouse_spec(mode, button, pressed, motion, mods, col, row));
        out
    } else {
        // Legacy X10: release is reported as button 3.
        let legacy: u8 = if pressed || motion {
            code
        } else {
            3 + mod_bits(mods)
        };
        let mut bytes: Vec<u8> = vec![0x1b, 0x5b, 0x4d, 32 + legacy];
        let ghost head = bytes@;
        if mode.utf8_mouse {
            // DECSET 1005: the same +32 offset, but each coordinate is a
            // UTF-8 code point rather than a raw byte.
            push_utf8(&mut bytes, col);
            push_utf8(&mut bytes, row);
        } else {
            // Positions are byte+32, clamped to 223 to stay in a single byte.
            let c: u16 = if col > 223 {
                223
            } else {
                col
            };
            let r: u16 = if row > 223 {
                223
            } else {
                row
            };
            bytes.push((c + 32) as u8);
            bytes.push((r + 32) as u8);
        }
        assert(bytes@ =~= encode_mouse_spec(mode, button, pressed, motion, mods, col, row));
        bytes
    }
}

/// Whether this event class should be reported to the application at all:
/// presses and releases in every mouse mode; motion in any-event mode, and
/// in drag mode while a button is held.
pub fn should_report(mode: TermModes, motion: bool, button_held: bool) -> (r: bool)
    ensures
        r == (mode.any_mouse_mode() && (!motion || mode.mouse_motion || (mode.mouse_drag
            && button_held))),
{
    if !(mode.mouse_report_click || mode.mouse_drag || mode.mouse_motion) {
        return false;
    }
    if !motion {
        return true;
    }
    if mode.mouse_motion {
        return true;
    }
    mode.mouse_drag && button_held
}

// ---------------------------------------------------------------------------
// The wheel
// ---------------------------------------------------------------------------

/// What a wheel movement of some whole lines does in a pane.
#[derive(Debug, Clone, PartialEq, Eq)]
pub enum WheelAction {
    /// Report that many presses of the wheel button to the application.
    Report { button: MouseButton, count: u32 },
    /// Send these bytes: an arrow key per line.
    Keys(Vec<u8>),
    /// Scroll the scrollback by that many lines (positive: back).
    Scroll(i32),
    Nothing,
}

/// The arrow key the wheel sends on the alternate screen: the SS3 form only
/// in application cursor mode, which an application that never set DECCKM
/// may not know.
pub open spec fn wheel_arrow(app_cursor: bool, up: bool) -> Seq<u8> {
    if app_cursor {
        seq![0x1bu8, 0x4fu8, if up { 0x41u8 } else { 0x42u8 }]
    } else {
        seq![0x1bu8, 0x5bu8, if up { 0x41u8 } else { 0x42u8 }]
    }
}

/// `s`, `n` times over.
pub open spec fn repeated(s: Seq<u8>, n: nat) -> Seq<u8>
    decreases n,
{
    if n == 0 {
        Seq::empty()
    } else {
        repeated(s, (n - 1) as nat) + s
    }
}

pub open spec fn abs_lines(lines: i32) -> nat {
    if lines < 0 {
        (-lines) as nat
    } else {
        lines as nat
    }
}

/// A [`WheelAction`] with its bytes as a sequence.
pub enum WheelActionView {
    Report { button: MouseButton, count: u32 },
    Keys(Seq<u8>),
    Scroll(i32),
    Nothing,
}

impl View for WheelAction {
    type V = WheelActionView;

    open spec fn view(&self) -> WheelActionView {
        match self {
            WheelAction::Report { button, count } => WheelActionView::Report { button: *button, count: *count },
            WheelAction::Keys(b) => WheelActionView::Keys(b@),
            WheelAction::Scroll(n) => WheelActionView::Scroll(*n),
            WheelAction::Nothing => WheelActionView::Nothing,
        }
    }
}

/// A wheel movement of `lines` lines (positive: up): reported as wheel
/// presses when the application takes the mouse, sent as arrow keys on the
/// alternate screen, and otherwise scrolling the scrollback.
pub open spec fn wheel_action_spec(lines: i32, report_mouse: bool, alt_screen: bool, app_cursor: bool) -> WheelActionView {
    if lines == 0 {
        WheelActionView::Nothing
    } else if report_mouse {
        WheelActionView::Report {
            button: if lines > 0 { MouseButton::WheelUp } else { MouseButton::WheelDown },
            count: abs_lines(lines) as u32,
        }
    } else if alt_screen {
        WheelActionView::Keys(repeated(wheel_arrow(app_cursor, lines > 0), abs_lines(lines)))
    } else {
        WheelActionView::Scroll(lines)
    }
}

pub fn wheel_action(lines: i32, report_mouse: bool, alt_screen: bool, app_cursor: bool) -> (r: WheelAction)
    ensures
        r@ == wheel_action_spec(lines, report_mouse, alt_screen, app_cursor),
{
    if lines == 0 {
        return WheelAction::Nothing;
    }
    let count: u32 = if lines < 0 {
        if lines == i32::MIN {
            0x8000_0000u32
        } else {
            (-lines) as u32
        }
    } else {
        lines as u32
    };
    if report_mouse {
        let button = if lines > 0 {
            MouseButton::WheelUp
        } else {
            MouseButton::WheelDown
        };
        return WheelAction::Report { button, count };
    }
    if alt_screen {
        let third: u8 = if lines > 0 {
            0x41
        } else {
            0x42
        };
        let second: u8 = if app_cursor {
            0x4f
        } else {
            0x5b
        };
        let ghost one = wheel_arrow(app_cursor, lines > 0);
        let mut bytes: Vec<u8> = Vec::new();
        let mut i: u32 = 0;
        while i < count
            invariant
                i <= count,
                one == seq![0x1bu8, second, third],
                bytes@ == repeated(one, i as nat),
            decreases count - i,
        {
            bytes.push(0x1b);
            bytes.push(second);
            bytes.push(third);
            i = i + 1;
            assert(bytes@ =~= repeated(one, (i - 1) as nat) + one);
        }
        return WheelAction::Keys(bytes);
    }
    WheelAction::Scroll(lines)
}

// ---------------------------------------------------------------------------
// Buttons a pane has reported
// ---------------------------------------------------------------------------

/// The first position of `b` in `s`.
pub open spec fn first_at(s: Seq<MouseButton>, b: MouseButton, i: int) -> bool {
    0 <= i < s.len() && s[i] == b && forall|j: int| 0 <= j < i ==> s[j] != b
}

/// The buttons a pane reported as pressed and not yet released, in press
/// order, and the cell of its last report: so that the release goes to the
/// pane that saw the press, and motion carries the button really held.
#[derive(Debug, Clone, Default)]
pub struct ButtonTracker {
    down: Vec<MouseButton>,
    last_cell: Option<(u16, u16)>,
}

impl ButtonTracker {
    pub closed spec fn held_view(&self) -> Seq<MouseButton> {
        self.down@
    }

    pub closed spec fn last_cell_view(&self) -> Option<(u16, u16)> {
        self.last_cell
    }

    /// A button event over the pane (`inside`: the pointer was inside it).
    /// A press inside is tracked and reported; a release is reported, and
    /// its earliest matching press forgotten, only when this pane saw the
    /// press, wherever the pointer ended up. Returns whether to report it.
    pub fn on_button(&mut self, button: MouseButton, pressed: bool, inside: bool) -> (report: bool)
        ensures
            final(self).last_cell_view() == old(self).last_cell_view(),
            pressed && inside ==> report && final(self).held_view() == old(self).held_view().push(button),
            pressed && !inside ==> !report && final(self).held_view() == old(self).held_view(),
            !pressed ==> report == old(self).held_view().contains(button),
            !pressed && old(self).held_view().contains(button) ==> exists|i: int|
                first_at(old(self).held_view(), button, i) && final(self).held_view() == old(self).held_view().remove(i),
            !pressed && !old(self).held_view().contains(button) ==> final(self).held_view() == old(self).held_view(),
    {
        if pressed {
            if !inside {
                return false;
            }
            self.down.push(button);
            return true;
        }
        let mut i: usize = 0;
        while i < self.down.len()
            invariant
                !pressed,
                0 <= i <= self.down@.len(),
                self.down@ == old(self).down@,
                self.last_cell == old(self).last_cell,
                forall|j: int| 0 <= j < i ==> self.down@[j] != button,
            decreases self.down@.len() - i,
        {
            if self.down[i] == button {
                let ghost before = self.down@;
                self.down.remove(i);
                assert(first_at(before, button, i as int));
                return true;
            }
            i = i + 1;
        }
        proof {
            if old(self).down@.contains(button) {
                let k = choose|k: int| 0 <= k < old(self).down@.len() && old(self).down@[k] == button;
                assert(self.down@[k] != button);
            }
        }
        false
    }

    /// The button that motion carries: the last one pressed.
    pub fn held(&self) -> (r: Option<MouseButton>)
        ensures
            r == if self.held_view().len() > 0 {
                Some(self.held_view().last())
            } else {
                None
            },
    {
        if self.down.len() > 0 {
            Some(self.down[self.down.len() - 1])
        } else {
            None
        }
    }

    /// Motion to `cell` is news: the last report was at another cell.
    pub fn moved_to(&self, cell: (u16, u16)) -> (r: bool)
        ensures
            r == (self.last_cell_view() != Some(cell)),
    {
        match self.last_cell {
            Some(c) => c.0 != cell.0 || c.1 != cell.1,
            None => true,
        }
    }

    /// A report was sent for `cell`.
    pub fn reported_at(&mut self, cell: (u16, u16))
        ensures
            final(self).last_cell_view() == Some(cell),
            final(self).held_view() == old(self).held_view(),
    {
        self.last_cell = Some(cell);
    }

    /// The pane stopped reporting (no mouse mode, or shift forces local
    /// selection): forget every button, so that none leaves phantom drags.
    pub fn reset(&mut self)
        ensures
            final(self).held_view().len() == 0,
            final(self).last_cell_view() is None,
    {
        self.down = Vec::new();
        self.last_cell = None;
    }
}

/// Pressing a button inside a pane and releasing it leaves the same buttons
/// held as before (in count; the order of equal presses may change).
pub proof fn law_press_release_restores_held(held: Seq<MouseButton>, b: MouseButton, i: int)
    requires
        first_at(held.push(b), b, i),
    ensures
        held.push(b).remove(i).to_multiset() == held.to_multiset(),
{
    broadcast use vstd::seq_lib::group_to_multiset_ensures;
    let s = held.push(b);
    vstd::seq_lib::to_multiset_remove(s, i);
    assert(s.to_multiset() =~= held.to_multiset().insert(b));
    assert(held.to_multiset().insert(b).remove(b) =~= held.to_multiset());
}

/// The selection a primary click starts: words on a double click, lines on
/// a triple click, a block with alt held, else plain.
#[derive(Debug, Clone, Copy, PartialEq, Eq)]
pub enum SelectionKind {
    Simple,
    Semantic,
    Lines,
    Block,
}

pub fn selection_kind(clicks: u8, alt: bool) -> (r: SelectionKind)
    ensures
        r == if clicks == 2 {
            SelectionKind::Semantic
        } else if clicks == 3 {
            SelectionKind::Lines
        } else if alt {
            SelectionKind::Block
        } else {
            SelectionKind::Simple
        },
{
    if clicks == 2 {
        SelectionKind::Semantic
    } else if clicks == 3 {
        SelectionKind::Lines
    } else if alt {
        SelectionKind::Block
    } else {
        SelectionKind::Simple
    }
}

/// The modifier bits of a reported button code: holding shift adds 4, alt
/// adds 8 and ctrl adds 16 to the code of the same event without it, so a
/// modified event never reports as the plain one; with no modifier and no
/// motion the code is the button's own.
pub proof fn law_modifier_bits(button: MouseButton, motion: bool, m: Modifiers)
    ensures
        event_code(button, motion, Modifiers { shift: true, ..m }) == event_code(
            button,
            motion,
            Modifiers { shift: false, ..m },
        ) + 4,
        event_code(button, motion, Modifiers { alt: true, ..m }) == event_code(
            button,
            motion,
            Modifiers { alt: false, ..m },
        ) + 8,
        event_code(button, motion, Modifiers { ctrl: true, ..m }) == event_code(
            button,
            motion,
            Modifiers { ctrl: false, ..m },
        ) + 16,
        event_code(button, true, m) == event_code(button, false, m) + 32,
        event_code(button, false, Modifiers { shift: false, alt: false, ctrl: false, ..m }) == button.code_spec(),
{
}

/// In SGR mode a press and the matching release report the same code and
/// cell and differ only in the final byte: `M` for the press, `m` for the
/// release.
pub proof fn law_sgr_press_release(
    mode: TermModes,
    button: MouseButton,
    motion: bool,
    m: Modifiers,
    col: u16,
    row: u16,
)
    requires
        mode.sgr_mouse,
    ensures
        ({
            let press = encode_mouse_spec(mode, button, true, motion, m, col, row);
            let release = encode_mouse_spec(mode, button, false, motion, m, col, row);
            &&& press.len() == release.len()
            &&& press.drop_last() == release.drop_last()
            &&& press.last() == 0x4du8
            &&& release.last() == 0x6du8
            &&& press.subrange(0, 3) == seq![0x1bu8, 0x5bu8, 0x3cu8]
        }),
{
    let code = event_code(button, motion, m);
    let body = seq![0x1bu8, 0x5bu8, 0x3cu8] + dec(code) + seq![0x3bu8] + dec(col as nat) + seq![0x3bu8]
        + dec(row as nat);
    let press = encode_mouse_spec(mode, button, true, motion, m, col, row);
    let release = encode_mouse_spec(mode, button, false, motion, m, col, row);
    assert(press =~= body.push(0x4du8));
    assert(release =~= body.push(0x6du8));
    assert(press.drop_last() =~= body);
    assert(release.drop_last() =~= body);
    assert(press.subrange(0, 3) =~= seq![0x1bu8, 0x5bu8, 0x3cu8]);
}

} // verus!
