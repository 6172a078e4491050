//! Keyboard modifiers and the terminal modes that change how input is
//! encoded: the plain values the encoders decide on.

use vstd::prelude::*;

use crate::text::opt_view;

verus! {

/// Modifier keys held during an input event.
///
/// `mac_cmd` is ⌘ on macOS; `command` is the platform's shortcut modifier
/// (⌘ on macOS, Ctrl elsewhere, where it mirrors `ctrl`).
#[derive(Debug, Clone, Copy, PartialEq, Eq, Default)]
pub struct Modifiers {
    pub alt: bool,
    pub ctrl: bool,
    pub shift: bool,
    pub mac_cmd: bool,
    pub command: bool,
}

impl Modifiers {
    pub open spec fn any_held(self) -> bool {
        self.alt || self.ctrl || self.shift || self.mac_cmd || self.command
    }

    /// Some modifier is held.
    pub fn any(&self) -> (r: bool)
        ensures
            r == self.any_held(),
    {
        self.alt || self.ctrl || self.shift || self.mac_cmd || self.command
    }

    /// No modifier held.
    pub fn none() -> (r: Modifiers)
        ensures
            !r.any_held(),
    {
        Modifiers { alt: false, ctrl: false, shift: false, mac_cmd: false, command: false }
    }
}

/// The terminal mode flags that decide how keys, pastes and mouse events are
/// encoded (DECCKM, kitty "disambiguate escape codes", bracketed paste and
/// the mouse reporting modes).
#[derive(Debug, Clone, Copy, PartialEq, Eq, Default)]
pub struct TermModes {
    /// DECCKM: application cursor keys.
    pub app_cursor: bool,
    /// Kitty keyboard protocol, level "disambiguate escape codes".
    pub disambiguate_esc_codes: bool,
    /// DECSET 2004.
    pub bracketed_paste: bool,
    /// DECSET 1006: SGR mouse encoding.
    pub sgr_mouse: bool,
    /// DECSET 1005: UTF-8 mouse coordinates.
    pub utf8_mouse: bool,
    /// DECSET 1000: report clicks.
    pub mouse_report_click: bool,
    /// DECSET 1002: report drags.
    pub mouse_drag: bool,
    /// DECSET 1003: report all motion.
    pub mouse_motion: bool,
}

impl TermModes {
    /// No mode flag set.
    pub fn empty() -> (r: TermModes)
        ensures
            !r.app_cursor && !r.disambiguate_esc_codes && !r.bracketed_paste && !r.sgr_mouse
                && !r.utf8_mouse && !r.mouse_report_click && !r.mouse_drag && !r.mouse_motion,
    {
        TermModes {
            app_cursor: false,
            disambiguate_esc_codes: false,
            bracketed_paste: false,
            sgr_mouse: false,
            utf8_mouse: false,
            mouse_report_click: false,
            mouse_drag: false,
            mouse_motion: false,
        }
    }

    /// Any of the three mouse reporting modes is on.
    pub open spec fn any_mouse_mode(self) -> bool {
        self.mouse_report_click || self.mouse_drag || self.mouse_motion
    }
}

/// Behaviour toggles of a terminal view, from the resolved profile config.
#[derive(Debug, Clone, PartialEq, Eq, Default)]
pub struct TermBehavior {
    pub copy_on_select: bool,
    pub quick_edit: bool,
    pub cursor_blink: bool,
    /// `webLinksActivationKey`: `""`, `"ctrl"`, `"alt"`, `"meta"` or `"shift"`.
    pub web_links_activation: String,
}

/// A pointer gesture that decides what happens to the selection.
#[derive(Debug, Clone, Copy, PartialEq, Eq)]
pub enum SelectGesture {
    /// A double or triple click selected a word or a line.
    MultiClick,
    /// A drag with the primary button ended (a plain click ends one too).
    DragStopped,
    /// A right click.
    SecondaryClick,
}

/// What a gesture does to the clipboard and the selection.
#[derive(Debug, Clone, PartialEq, Eq)]
pub struct ClipboardStep {
    /// Text to put on the clipboard.
    pub copied: Option<String>,
    /// Clear the terminal's selection.
    pub clear_selection: bool,
    /// Paste the clipboard into the terminal.
    pub wants_paste: bool,
}

/// What a gesture does, over character sequences: what is copied, whether
/// the selection is cleared, whether a paste is asked for, and the
/// selection snapshot afterwards (the text that copying takes, even when an
/// application has since rewritten the cells).
///
/// - A multi-click that selected something makes it the snapshot and, with
///   copyOnSelect, copies it.
/// - The end of a drag does the same with a non-empty selection; with none
///   (a plain click) it clears the selection and the snapshot.
/// - With quickEdit, a right click over a selection copies the snapshot
///   (else the selection) and clears both; with no selection it asks for a
///   paste. Without quickEdit a right click does nothing here.
pub open spec fn clipboard_step_spec(
    copy_on_select: bool,
    quick_edit: bool,
    gesture: SelectGesture,
    selection: Option<Seq<char>>,
    snapshot: Option<Seq<char>>,
) -> (Option<Seq<char>>, bool, bool, Option<Seq<char>>) {
    let selected = selection matches Some(t) && t.len() > 0;
    match gesture {
        SelectGesture::MultiClick => if selected {
            (if copy_on_select { selection } else { None }, false, false, selection)
        } else {
            (None, false, false, snapshot)
        },
        SelectGesture::DragStopped => if selected {
            (if copy_on_select { selection } else { None }, false, false, selection)
        } else {
            (None, true, false, None)
        },
        SelectGesture::SecondaryClick => if !quick_edit {
            (None, false, false, snapshot)
        } else if selected {
            (if snapshot is Some { snapshot } else { selection }, true, false, None)
        } else {
            (None, false, true, snapshot)
        },
    }
}

/// Decide what `gesture` does, given the terminal's selected text and the
/// pane's snapshot, which it updates.
pub fn selection_clipboard_step(
    behavior: &TermBehavior,
    gesture: SelectGesture,
    selection_text: Option<String>,
    snapshot: &mut Option<String>,
) -> (r: ClipboardStep)
    ensures
        (opt_view(r.copied), r.clear_selection, r.wants_paste, opt_view(*final(snapshot))) == clipboard_step_spec(
            behavior.copy_on_select,
            behavior.quick_edit,
            gesture,
            opt_view(selection_text),
            opt_view(*old(snapshot)),
        ),
{
    let selected = match &selection_text {
        Some(t) => t.as_str().unicode_len() > 0,
        None => false,
    };
    match gesture {
        SelectGesture::MultiClick | SelectGesture::DragStopped => {
            if selected {
                let copied = if behavior.copy_on_select {
                    clone_opt(&selection_text)
                } else {
                    None
                };
                *snapshot = selection_text;
                ClipboardStep { copied, clear_selection: false, wants_paste: false }
            } else {
                match gesture {
                    SelectGesture::DragStopped => {
                        *snapshot = None;
                        ClipboardStep { copied: None, clear_selection: true, wants_paste: false }
                    },
                    _ => ClipboardStep { copied: None, clear_selection: false, wants_paste: false },
                }
            }
        },
        SelectGesture::SecondaryClick => {
            if !behavior.quick_edit {
                ClipboardStep { copied: None, clear_selection: false, wants_paste: false }
            } else if selected {
                let copied = match snapshot {
                    Some(_) => clone_opt(snapshot),
                    None => selection_text,
                };
                *snapshot = None;
                ClipboardStep { copied, clear_selection: true, wants_paste: false }
            } else {
                ClipboardStep { copied: None, clear_selection: false, wants_paste: true }
            }
        },
    }
}

fn clone_opt(o: &Option<String>) -> (r: Option<String>)
    ensures
        opt_view(r) == opt_view(*o),
{
    match o {
        Some(t) => Some(crate::text::copy_string(t)),
        None => None,
    }
}

} // verus!
