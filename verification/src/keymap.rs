//! Key chords in mousetrap syntax (`"command+shift+d"`) and the command
//! names of the keymap section (`"tab:new"`, `"tab:jump:3"`, …).

use vstd::prelude::*;

use crate::platform::Platform;
use crate::text::{
    all_ascii, ascii_lower, chars_eq, chars_of, copy_string, has_prefix, lemma_split_on_nonempty, lowercase, parse_u8,
    parse_u8_spec, replace_all, replace_chars, split_chars, split_on, starts_with, str_lowercase,
    string_of, sub_chars, trim, trim_chars, views_of,
};

verus! {

/// A command binding value in config: `"cmd+t"` or `["cmd+t", "ctrl+t"]`.
#[derive(Debug, Clone, PartialEq)]
pub enum OneOrMany {
    One(String),
    Many(Vec<String>),
}

impl OneOrMany {
    /// The bindings, in order.
    pub open spec fn bindings(&self) -> Seq<Seq<char>> {
        match self {
            OneOrMany::One(s) => seq![s@],
            OneOrMany::Many(v) => v@.map_values(|s: String| s@),
        }
    }

    /// Every binding, in order (a single string is a list of one).
    pub fn iter(&self) -> (r: Vec<String>)
        ensures
            r@.map_values(|s: String| s@) == self.bindings(),
    {
        match self {
            OneOrMany::One(s) => {
                let mut r: Vec<String> = Vec::new();
                r.push(copy_string(s));
                assert(r@.map_values(|s: String| s@) =~= self.bindings());
                r
            },
            OneOrMany::Many(v) => {
                let mut r: Vec<String> = Vec::new();
                let mut i: usize = 0;
                while i < v.len()
                    invariant
                        0 <= i <= v@.len(),
                        r@.len() == i,
                        forall|j: int| 0 <= j < i ==> (#[trigger] r@[j])@ == v@[j]@,
                    decreases v@.len() - i,
                {
                    r.push(copy_string(&v[i]));
                    i = i + 1;
                }
                assert(r@.map_values(|s: String| s@) =~= v@.map_values(|s: String| s@));
                r
            },
        }
    }
}

/// GUI-toolkit-agnostic key chord parsed from a mousetrap-style string.
#[derive(Debug, Clone, PartialEq, Eq, Hash)]
pub struct KeyChord {
    /// The Meta key: ⌘ on macOS, Super/Win elsewhere (mousetrap's `meta`).
    pub command: bool,
    pub ctrl: bool,
    pub alt: bool,
    pub shift: bool,
    /// Lowercased key name: "a", "1", "[", "left", "esc", "plus", "f5", …
    pub key: String,
}

/// The mathematical content of a [`KeyChord`].
pub struct ChordSpec {
    pub command: bool,
    pub ctrl: bool,
    pub alt: bool,
    pub shift: bool,
    pub key: Seq<char>,
}

impl View for KeyChord {
    type V = ChordSpec;

    open spec fn view(&self) -> ChordSpec {
        ChordSpec {
            command: self.command,
            ctrl: self.ctrl,
            alt: self.alt,
            shift: self.shift,
            key: self.key@,
        }
    }
}

/// The modifier a mousetrap modifier name stands for.
#[derive(Debug, Clone, Copy, PartialEq, Eq)]
pub enum ModKind {
    /// `command`, `cmd`, `meta`
    Meta,
    /// `mod`: Meta on macOS, Ctrl elsewhere
    Mod,
    /// `ctrl`, `control`
    Ctrl,
    /// `alt`, `option`
    Alt,
    /// `shift`
    Shift,
}

pub open spec fn modifier_kind(m: Seq<char>) -> Option<ModKind> {
    if m == "command"@ || m == "cmd"@ || m == "meta"@ {
        Some(ModKind::Meta)
    } else if m == "mod"@ {
        Some(ModKind::Mod)
    } else if m == "ctrl"@ || m == "control"@ {
        Some(ModKind::Ctrl)
    } else if m == "alt"@ || m == "option"@ {
        Some(ModKind::Alt)
    } else if m == "shift"@ {
        Some(ModKind::Shift)
    } else {
        None
    }
}

/// Is `v` exactly the word `w`?
pub fn is_word(v: &[char], w: &str) -> (r: bool)
    ensures
        r == (v@ == w@),
{
    let wv = chars_of(w);
    chars_eq(v, &wv)
}

pub fn classify_modifier(m: &[char]) -> (r: Option<ModKind>)
    ensures
        r == modifier_kind(m@),
{
    if is_word(m, "command") || is_word(m, "cmd") || is_word(m, "meta") {
        Some(ModKind::Meta)
    } else if is_word(m, "mod") {
        Some(ModKind::Mod)
    } else if is_word(m, "ctrl") || is_word(m, "control") {
        Some(ModKind::Ctrl)
    } else if is_word(m, "alt") || is_word(m, "option") {
        Some(ModKind::Alt)
    } else if is_word(m, "shift") {
        Some(ModKind::Shift)
    } else {
        None
    }
}

/// Some modifier among the first `n` names is of kind `k`.
pub open spec fn has_kind(mods: Seq<Seq<char>>, k: ModKind, n: int) -> bool {
    exists|j: int| 0 <= j < n && #[trigger] modifier_kind(mods[j]) == Some(k)
}

/// Mousetrap's `_keysFromString` normalization: a lone `+` is the plus key
/// and `++` means `+plus`.
pub open spec fn normalize_plus(lower: Seq<char>) -> Seq<char> {
    if lower == "+"@ {
        "plus"@
    } else {
        replace_all(lower, "++"@, "+plus"@)
    }
}

/// What `parse_chord` yields for `binding` on `platform`.
pub open spec fn chord_spec(binding: Seq<char>, platform: Platform) -> Option<ChordSpec> {
    chord_of_lower(str_lowercase(trim(binding)), platform)
}

/// The chord of an already trimmed and lower-cased binding.
pub open spec fn chord_of_lower(lower: Seq<char>, platform: Platform) -> Option<ChordSpec> {
    if lower.len() == 0 {
        None
    } else {
        let parts = split_on(normalize_plus(lower), '+');
        let n = parts.len() - 1;
        let key = trim(parts.last());
        if (exists|j: int| 0 <= j < n && #[trigger] modifier_kind(parts[j]) is None) || key.len()
            == 0 {
            None
        } else {
            Some(
                ChordSpec {
                    command: has_kind(parts, ModKind::Meta, n) || (platform.is_mac() && has_kind(
                        parts,
                        ModKind::Mod,
                        n,
                    )),
                    ctrl: has_kind(parts, ModKind::Ctrl, n) || (!platform.is_mac() && has_kind(
                        parts,
                        ModKind::Mod,
                        n,
                    )),
                    alt: has_kind(parts, ModKind::Alt, n),
                    shift: has_kind(parts, ModKind::Shift, n),
                    key,
                },
            )
        }
    }
}

/// `s` holds no `+`.
pub open spec fn plus_free(s: Seq<char>) -> bool {
    forall|i: int| 0 <= i < s.len() ==> #[trigger] s[i] != '+'
}

/// Text without two `+` in a row is left alone by the `++` rewrite.
proof fn lemma_no_double_plus(s: Seq<char>)
    requires
        forall|i: int| 0 <= i < s.len() - 1 ==> !(#[trigger] s[i] == '+' && s[i + 1] == '+'),
    ensures
        replace_all(s, "++"@, "+plus"@) == s,
    decreases s.len(),
{
    reveal_strlit("++");
    if s.len() > 0 {
        if starts_with(s, "++"@) {
            assert(s.subrange(0, 2)[0] == '+' && s.subrange(0, 2)[1] == '+');
            assert(s[0] == '+' && s[1] == '+');
        }
        let t = s.drop_first();
        assert forall|i: int| 0 <= i < t.len() - 1 implies !(#[trigger] t[i] == '+' && t[i + 1] == '+') by {
            assert(t[i] == s[i + 1] && t[i + 1] == s[i + 2]);
        }
        lemma_no_double_plus(t);
        assert(seq![s[0]] + t =~= s);
    }
}

/// Text without `+` splits into itself.
proof fn lemma_split_whole(k: Seq<char>)
    requires
        plus_free(k),
    ensures
        split_on(k, '+') == seq![k],
    decreases k.len(),
{
    if k.len() > 0 {
        let t = k.drop_first();
        assert(plus_free(t)) by {
            assert forall|i: int| 0 <= i < t.len() implies #[trigger] t[i] != '+' by {
                assert(t[i] == k[i + 1]);
            }
        }
        lemma_split_whole(t);
        assert(k[0] != '+');
        assert(seq![k[0]] + t =~= k);
        assert(split_on(k, '+') =~= seq![k]);
    } else {
        assert(k =~= Seq::<char>::empty());
    }
}

/// `m+t`, with no `+` in `m`, splits into `m` and the pieces of `t`.
proof fn lemma_split_first(m: Seq<char>, t: Seq<char>)
    requires
        plus_free(m),
    ensures
        split_on(m + seq!['+'] + t, '+') == seq![m] + split_on(t, '+'),
    decreases m.len(),
{
    let s = m + seq!['+'] + t;
    if m.len() == 0 {
        assert(s[0] == '+');
        assert(s.drop_first() =~= t);
        assert(m =~= Seq::<char>::empty());
    } else {
        let m2 = m.drop_first();
        assert(plus_free(m2)) by {
            assert forall|i: int| 0 <= i < m2.len() implies #[trigger] m2[i] != '+' by {
                assert(m2[i] == m[i + 1]);
            }
        }
        lemma_split_first(m2, t);
        assert(s.drop_first() =~= m2 + seq!['+'] + t);
        assert(s[0] == m[0] && m[0] != '+');
        let rest = split_on(s.drop_first(), '+');
        assert(rest == seq![m2] + split_on(t, '+'));
        assert(seq![m[0]] + m2 =~= m);
        assert(rest.update(0, seq![s[0]] + rest[0]) =~= seq![m] + split_on(t, '+'));
    }
}

/// The chord of `m+k` for one modifier name `m` and a key `k`.
proof fn lemma_chord_one(m: Seq<char>, k: Seq<char>, platform: Platform)
    requires
        plus_free(m),
        plus_free(k),
        m.len() > 0,
        k.len() > 0,
        trim(k) == k,
        modifier_kind(m) is Some,
    ensures
        ({
            let kind = modifier_kind(m)->0;
            chord_of_lower(m + seq!['+'] + k, platform) == Some(
                ChordSpec {
                    command: kind == ModKind::Meta || (platform.is_mac() && kind == ModKind::Mod),
                    ctrl: kind == ModKind::Ctrl || (!platform.is_mac() && kind == ModKind::Mod),
                    alt: kind == ModKind::Alt,
                    shift: kind == ModKind::Shift,
                    key: k,
                },
            )
        }),
{
    let lower = m + seq!['+'] + k;
    reveal_strlit("+");
    assert(lower != "+"@) by {
        assert(lower.len() >= 3);
    }
    assert forall|i: int| 0 <= i < lower.len() - 1 implies !(#[trigger] lower[i] == '+' && lower[i + 1] == '+') by {
        if i < m.len() {
            assert(lower[i] == m[i]);
        } else {
            assert(lower[i + 1] == k[i + 1 - m.len() - 1]);
        }
    }
    lemma_no_double_plus(lower);
    assert(normalize_plus(lower) == lower);
    lemma_split_whole(k);
    lemma_split_first(m, k);
    let parts = split_on(lower, '+');
    assert(parts =~= seq![m, k]);
    let kind = modifier_kind(m)->0;
    assert forall|kk: ModKind| has_kind(parts, kk, 1) == (kind == kk) by {
        if kind == kk {
            assert(modifier_kind(parts[0]) == Some(kk));
        }
    }
    assert(!(exists|j: int| 0 <= j < 1 && #[trigger] modifier_kind(parts[j]) is None));
}

/// Modifier aliases: `cmd`, `command` and `meta` all name the Meta key;
/// `option` is `alt`; `mod` is Meta on macOS and Ctrl elsewhere. For a key
/// `k` (no `+`, not padded with whitespace, already lower case), every
/// spelling gives the same chord.
pub proof fn law_chord_aliases(k: Seq<char>, platform: Platform)
    requires
        k.len() > 0,
        plus_free(k),
        trim(k) == k,
    ensures
        chord_of_lower("cmd+"@ + k, platform) == Some(
            ChordSpec { command: true, ctrl: false, alt: false, shift: false, key: k },
        ),
        chord_of_lower("meta+"@ + k, platform) == chord_of_lower("cmd+"@ + k, platform),
        chord_of_lower("command+"@ + k, platform) == chord_of_lower("cmd+"@ + k, platform),
        chord_of_lower("option+"@ + k, platform) == chord_of_lower("alt+"@ + k, platform),
        chord_of_lower("control+"@ + k, platform) == chord_of_lower("ctrl+"@ + k, platform),
        chord_of_lower("mod+"@ + k, platform) == if platform.is_mac() {
            chord_of_lower("cmd+"@ + k, platform)
        } else {
            chord_of_lower("ctrl+"@ + k, platform)
        },
{
    reveal_strlit("cmd");
    reveal_strlit("cmd+");
    reveal_strlit("meta");
    reveal_strlit("meta+");
    reveal_strlit("command");
    reveal_strlit("command+");
    reveal_strlit("option");
    reveal_strlit("option+");
    reveal_strlit("alt");
    reveal_strlit("alt+");
    reveal_strlit("control");
    reveal_strlit("control+");
    reveal_strlit("ctrl");
    reveal_strlit("ctrl+");
    reveal_strlit("mod");
    reveal_strlit("mod+");
    reveal_strlit("shift");
    assert("cmd+"@ + k =~= "cmd"@ + seq!['+'] + k);
    assert("meta+"@ + k =~= "meta"@ + seq!['+'] + k);
    assert("command+"@ + k =~= "command"@ + seq!['+'] + k);
    assert("option+"@ + k =~= "option"@ + seq!['+'] + k);
    assert("alt+"@ + k =~= "alt"@ + seq!['+'] + k);
    assert("control+"@ + k =~= "control"@ + seq!['+'] + k);
    assert("ctrl+"@ + k =~= "ctrl"@ + seq!['+'] + k);
    assert("mod+"@ + k =~= "mod"@ + seq!['+'] + k);
    assert(modifier_kind("cmd"@) == Some(ModKind::Meta));
    assert(modifier_kind("meta"@) == Some(ModKind::Meta));
    assert(modifier_kind("command"@) == Some(ModKind::Meta));
    assert(modifier_kind("option"@) == Some(ModKind::Alt));
    assert("alt"@ != "cmd"@ && "alt"@ != "mod"@) by {
        assert("alt"@[0] != "cmd"@[0] && "alt"@[0] != "mod"@[0]);
    }
    assert(modifier_kind("alt"@) == Some(ModKind::Alt));
    assert("control"@ != "command"@) by {
        assert("control"@[3] != "command"@[3]);
    }
    assert(modifier_kind("control"@) == Some(ModKind::Ctrl));
    assert("ctrl"@ != "meta"@) by {
        assert("ctrl"@[0] != "meta"@[0]);
    }
    assert(modifier_kind("ctrl"@) == Some(ModKind::Ctrl));
    assert("mod"@ != "cmd"@) by {
        assert("mod"@[0] != "cmd"@[0]);
    }
    assert(modifier_kind("mod"@) == Some(ModKind::Mod));
    lemma_chord_one("cmd"@, k, platform);
    lemma_chord_one("meta"@, k, platform);
    lemma_chord_one("command"@, k, platform);
    lemma_chord_one("option"@, k, platform);
    lemma_chord_one("alt"@, k, platform);
    lemma_chord_one("control"@, k, platform);
    lemma_chord_one("ctrl"@, k, platform);
    lemma_chord_one("mod"@, k, platform);
}

/// Parse "command+shift+d" etc.
///
/// Modifier names follow mousetrap: `cmd`/`command`/`meta` are the Meta key,
/// `option` aliases `alt`, and `mod` is platform-dependent — Meta on macOS,
/// Ctrl everywhere else (`_SPECIAL_ALIASES` in mousetrap). An unknown
/// modifier or an empty key rejects the whole binding.
pub fn parse_chord(binding: &str, platform: Platform) -> (r: Option<KeyChord>)
    ensures
        match r {
            None => chord_spec(binding@, platform) is None,
            Some(c) => chord_spec(binding@, platform) == Some(c@),
        },
        all_ascii(trim(binding@)) ==> chord_spec(binding@, platform) == chord_of_lower(
            trim(binding@).map_values(|c: char| ascii_lower(c)),
            platform,
        ),
{
    let raw = chars_of(binding);
    let trimmed = trim_chars(&raw);
    let trimmed_s = string_of(&trimmed);
    let lower_s = lowercase(trimmed_s.as_str());
    let ghost ascii_fact = all_ascii(trim(binding@)) ==> str_lowercase(trim(binding@)) == trim(binding@).map_values(
        |c: char| ascii_lower(c),
    );
    assert(ascii_fact);
    let lower = chars_of(lower_s.as_str());
    if lower.len() == 0 {
        return None;
    }
    let normalized = if is_word(&lower, "+") {
        chars_of("plus")
    } else {
        proof {
            reveal_strlit("++");
        }
        let pp = chars_of("++");
        let plus = chars_of("+plus");
        replace_chars(&lower, &pp, &plus)
    };
    let parts = split_chars(&normalized, '+');
    let ghost views = views_of(parts@);
    proof {
        lemma_split_on_nonempty(normalized@, '+');
        let lw = str_lowercase(trim(binding@));
        assert(lw == lower@);
        assert(normalize_plus(lw) == normalized@);
        assert(split_on(normalize_plus(lw), '+') == views);
    }
    let n = parts.len() - 1;
    let mut meta = false;
    let mut has_mod = false;
    let mut ctrl = false;
    let mut alt = false;
    let mut shift = false;
    let mut i: usize = 0;
    while i < n
        invariant
            views == views_of(parts@),
            views == split_on(normalize_plus(str_lowercase(trim(binding@))), '+'),
            str_lowercase(trim(binding@)).len() > 0,
            ascii_fact,
            ascii_fact == (all_ascii(trim(binding@)) ==> str_lowercase(trim(binding@)) == trim(binding@).map_values(
                |c: char| ascii_lower(c),
            )),
            n + 1 == parts@.len(),
            0 <= i <= n,
            forall|j: int| 0 <= j < i ==> #[trigger] modifier_kind(views[j]) is Some,
            meta == has_kind(views, ModKind::Meta, i as int),
            has_mod == has_kind(views, ModKind::Mod, i as int),
            ctrl == has_kind(views, ModKind::Ctrl, i as int),
            alt == has_kind(views, ModKind::Alt, i as int),
            shift == has_kind(views, ModKind::Shift, i as int),
        decreases n - i,
    {
        assert(views[i as int] == parts@[i as int]@);
        let kind = classify_modifier(&parts[i]);
        match kind {
            None => {
                return None;
            },
            Some(k) => {
                proof {
                    assert(modifier_kind(views[i as int]) == Some(k));
                    assert forall|kk: ModKind|
                        has_kind(views, kk, i + 1) == (has_kind(views, kk, i as int) || k
                            == kk) by {
                        if has_kind(views, kk, i + 1) && k != kk {
                            let j = choose|j: int|
                                0 <= j < i + 1 && #[trigger] modifier_kind(views[j]) == Some(kk);
                            assert(j != i);
                        }
                    }
                }
                match k {
                    ModKind::Meta => {
                        meta = true;
                    },
                    ModKind::Mod => {
                        has_mod = true;
                    },
                    ModKind::Ctrl => {
                        ctrl = true;
                    },
                    ModKind::Alt => {
                        alt = true;
                    },
                    ModKind::Shift => {
                        shift = true;
                    },
                }
            },
        }
        i = i + 1;
    }
    let key = trim_chars(&parts[n]);
    assert(views[n as int] == parts@[n as int]@);
    assert(views.last() == views[n as int]);
    if key.len() == 0 {
        return None;
    }
    let mac = platform.is_macos();
    let chord = KeyChord {
        command: meta || (mac && has_mod),
        ctrl: ctrl || (!mac && has_mod),
        alt,
        shift,
        key: string_of(&key),
    };
    Some(chord)
}

/// Every app command reachable from keymaps/menus. String forms match the
/// Command names of the config file's keymaps.
#[derive(Debug, Clone, PartialEq)]
pub enum Command {
    NewWindow,
    NewWindowProfile(String),
    CloseWindow,
    MinimizeWindow,
    ZoomWindow,
    ToggleFullScreen,
    Preferences,
    OpenConfigFile,
    ZoomReset,
    ZoomIn,
    ZoomOut,
    NewTab,
    NewTabProfile(String),
    NextTab,
    PrevTab,
    JumpTab(u8),
    JumpTabLast,
    NextPane,
    PrevPane,
    SplitRight,
    SplitRightProfile(String),
    SplitDown,
    SplitDownProfile(String),
    ClosePane,
    Copy,
    Paste,
    SelectAll,
    Search,
    SearchClose,
    ClearBuffer,
    /// Fixed byte sequence written to the PTY (editor:move*/delete*/break).
    PtyBytes(&'static [u8]),
}

/// The mathematical content of a [`Command`].
pub enum CommandSpec {
    NewWindow,
    NewWindowProfile(Seq<char>),
    CloseWindow,
    MinimizeWindow,
    ZoomWindow,
    ToggleFullScreen,
    Preferences,
    OpenConfigFile,
    ZoomReset,
    ZoomIn,
    ZoomOut,
    NewTab,
    NewTabProfile(Seq<char>),
    NextTab,
    PrevTab,
    JumpTab(u8),
    JumpTabLast,
    NextPane,
    PrevPane,
    SplitRight,
    SplitRightProfile(Seq<char>),
    SplitDown,
    SplitDownProfile(Seq<char>),
    ClosePane,
    Copy,
    Paste,
    SelectAll,
    Search,
    SearchClose,
    ClearBuffer,
    PtyBytes(Seq<u8>),
}

impl View for Command {
    type V = CommandSpec;

    open spec fn view(&self) -> CommandSpec {
        match self {
            Command::NewWindow => CommandSpec::NewWindow,
            Command::NewWindowProfile(p) => CommandSpec::NewWindowProfile(p@),
            Command::CloseWindow => CommandSpec::CloseWindow,
            Command::MinimizeWindow => CommandSpec::MinimizeWindow,
            Command::ZoomWindow => CommandSpec::ZoomWindow,
            Command::ToggleFullScreen => CommandSpec::ToggleFullScreen,
            Command::Preferences => CommandSpec::Preferences,
            Command::OpenConfigFile => CommandSpec::OpenConfigFile,
            Command::ZoomReset => CommandSpec::ZoomReset,
            Command::ZoomIn => CommandSpec::ZoomIn,
            Command::ZoomOut => CommandSpec::ZoomOut,
            Command::NewTab => CommandSpec::NewTab,
            Command::NewTabProfile(p) => CommandSpec::NewTabProfile(p@),
            Command::NextTab => CommandSpec::NextTab,
            Command::PrevTab => CommandSpec::PrevTab,
            Command::JumpTab(n) => CommandSpec::JumpTab(*n),
            Command::JumpTabLast => CommandSpec::JumpTabLast,
            Command::NextPane => CommandSpec::NextPane,
            Command::PrevPane => CommandSpec::PrevPane,
            Command::SplitRight => CommandSpec::SplitRight,
            Command::SplitRightProfile(p) => CommandSpec::SplitRightProfile(p@),
            Command::SplitDown => CommandSpec::SplitDown,
            Command::SplitDownProfile(p) => CommandSpec::SplitDownProfile(p@),
            Command::ClosePane => CommandSpec::ClosePane,
            Command::Copy => CommandSpec::Copy,
            Command::Paste => CommandSpec::Paste,
            Command::SelectAll => CommandSpec::SelectAll,
            Command::Search => CommandSpec::Search,
            Command::SearchClose => CommandSpec::SearchClose,
            Command::ClearBuffer => CommandSpec::ClearBuffer,
            Command::PtyBytes(b) => CommandSpec::PtyBytes(b@),
        }
    }
}

impl Command {
    /// Whether a key binding for this command is live: the binding that
    /// closes the search overlay (Esc) only while it is open, so that Esc
    /// otherwise reaches the terminal; every other binding always.
    pub fn binding_live(&self, search_open: bool) -> (r: bool)
        ensures
            r == (self@ != CommandSpec::SearchClose || search_open),
    {
        match self {
            Command::SearchClose => search_open,
            _ => true,
        }
    }
}

/// The commands named by a fixed string.
pub open spec fn fixed_command(name: Seq<char>) -> Option<CommandSpec> {
    if name == "window:new"@ {
        Some(CommandSpec::NewWindow)
    } else if name == "window:close"@ {
        Some(CommandSpec::CloseWindow)
    } else if name == "window:minimize"@ {
        Some(CommandSpec::MinimizeWindow)
    } else if name == "window:zoom"@ {
        Some(CommandSpec::ZoomWindow)
    } else if name == "window:toggleFullScreen"@ {
        Some(CommandSpec::ToggleFullScreen)
    } else if name == "window:preferences"@ {
        Some(CommandSpec::Preferences)
    } else if name == "window:openConfigFile"@ {
        Some(CommandSpec::OpenConfigFile)
    } else if name == "zoom:reset"@ {
        Some(CommandSpec::ZoomReset)
    } else if name == "zoom:in"@ {
        Some(CommandSpec::ZoomIn)
    } else if name == "zoom:out"@ {
        Some(CommandSpec::ZoomOut)
    } else if name == "tab:new"@ {
        Some(CommandSpec::NewTab)
    } else if name == "tab:next"@ {
        Some(CommandSpec::NextTab)
    } else if name == "tab:prev"@ {
        Some(CommandSpec::PrevTab)
    } else if name == "pane:next"@ {
        Some(CommandSpec::NextPane)
    } else if name == "pane:prev"@ {
        Some(CommandSpec::PrevPane)
    } else if name == "pane:splitRight"@ {
        Some(CommandSpec::SplitRight)
    } else if name == "pane:splitDown"@ {
        Some(CommandSpec::SplitDown)
    } else if name == "pane:close"@ {
        Some(CommandSpec::ClosePane)
    } else if name == "editor:copy"@ {
        Some(CommandSpec::Copy)
    } else if name == "editor:paste"@ {
        Some(CommandSpec::Paste)
    } else if name == "editor:selectAll"@ {
        Some(CommandSpec::SelectAll)
    } else if name == "editor:search"@ {
        Some(CommandSpec::Search)
    } else if name == "editor:search-close"@ {
        Some(CommandSpec::SearchClose)
    } else if name == "editor:clearBuffer"@ {
        Some(CommandSpec::ClearBuffer)
    } else if name == "editor:break"@ {
        Some(CommandSpec::PtyBytes(seq![0x03u8]))
    } else if name == "editor:movePreviousWord"@ {
        Some(CommandSpec::PtyBytes(seq![0x1bu8, 0x62u8]))
    } else if name == "editor:moveNextWord"@ {
        Some(CommandSpec::PtyBytes(seq![0x1bu8, 0x66u8]))
    } else if name == "editor:moveBeginningLine"@ {
        Some(CommandSpec::PtyBytes(seq![0x1bu8, 0x4fu8, 0x48u8]))
    } else if name == "editor:moveEndLine"@ {
        Some(CommandSpec::PtyBytes(seq![0x1bu8, 0x4fu8, 0x46u8]))
    } else if name == "editor:deletePreviousWord"@ {
        Some(CommandSpec::PtyBytes(seq![0x1bu8, 0x7fu8]))
    } else if name == "editor:deleteNextWord"@ {
        Some(CommandSpec::PtyBytes(seq![0x1bu8, 0x64u8]))
    } else if name == "editor:deleteBeginningLine"@ {
        Some(CommandSpec::PtyBytes(seq![0x1bu8, 0x77u8]))
    } else if name == "editor:deleteEndLine"@ {
        Some(CommandSpec::PtyBytes(seq![0x0bu8]))
    } else if name == "tab:jump:last"@ {
        Some(CommandSpec::JumpTabLast)
    } else {
        None
    }
}

/// What `parse_command` yields for a command name.
pub open spec fn command_spec(name: Seq<char>) -> Option<CommandSpec> {
    if fixed_command(name) is Some {
        fixed_command(name)
    } else if starts_with(name, "tab:jump:"@) {
        match parse_u8_spec(name.skip("tab:jump:"@.len() as int)) {
            Some(n) => if 1 <= n <= 8 {
                Some(CommandSpec::JumpTab(n))
            } else {
                None
            },
            None => None,
        }
    } else if starts_with(name, "tab:new:"@) {
        Some(CommandSpec::NewTabProfile(name.skip("tab:new:"@.len() as int)))
    } else if starts_with(name, "window:new:"@) {
        Some(CommandSpec::NewWindowProfile(name.skip("window:new:"@.len() as int)))
    } else if starts_with(name, "pane:splitRight:"@) {
        Some(CommandSpec::SplitRightProfile(name.skip("pane:splitRight:"@.len() as int)))
    } else if starts_with(name, "pane:splitDown:"@) {
        Some(CommandSpec::SplitDownProfile(name.skip("pane:splitDown:"@.len() as int)))
    } else {
        None
    }
}

fn fixed_command_of(v: &[char]) -> (r: Option<Command>)
    ensures
        match r {
            None => fixed_command(v@) is None,
            Some(c) => fixed_command(v@) == Some(c@),
        },
{
    if is_word(v, "window:new") {
        Some(Command::NewWindow)
    } else if is_word(v, "window:close") {
        Some(Command::CloseWindow)
    } else if is_word(v, "window:minimize") {
        Some(Command::MinimizeWindow)
    } else if is_word(v, "window:zoom") {
        Some(Command::ZoomWindow)
    } else if is_word(v, "window:toggleFullScreen") {
        Some(Command::ToggleFullScreen)
    } else if is_word(v, "window:preferences") {
        Some(Command::Preferences)
    } else if is_word(v, "window:openConfigFile") {
        Some(Command::OpenConfigFile)
    } else if is_word(v, "zoom:reset") {
        Some(Command::ZoomReset)
    } else if is_word(v, "zoom:in") {
        Some(Command::ZoomIn)
    } else if is_word(v, "zoom:out") {
        Some(Command::ZoomOut)
    } else if is_word(v, "tab:new") {
        Some(Command::NewTab)
    } else if is_word(v, "tab:next") {
        Some(Command::NextTab)
    } else if is_word(v, "tab:prev") {
        Some(Command::PrevTab)
    } else if is_word(v, "pane:next") {
        Some(Command::NextPane)
    } else if is_word(v, "pane:prev") {
        Some(Command::PrevPane)
    } else if is_word(v, "pane:splitRight") {
        Some(Command::SplitRight)
    } else if is_word(v, "pane:splitDown") {
        Some(Command::SplitDown)
    } else if is_word(v, "pane:close") {
        Some(Command::ClosePane)
    } else if is_word(v, "editor:copy") {
        Some(Command::Copy)
    } else if is_word(v, "editor:paste") {
        Some(Command::Paste)
    } else if is_word(v, "editor:selectAll") {
        Some(Command::SelectAll)
    } else if is_word(v, "editor:search") {
        Some(Command::Search)
    } else if is_word(v, "editor:search-close") {
        Some(Command::SearchClose)
    } else if is_word(v, "editor:clearBuffer") {
        Some(Command::ClearBuffer)
    } else if is_word(v, "editor:break") {
        let b: &'static [u8] = &[0x03];
        assert(b@ =~= seq![0x03u8]);
        Some(Command::PtyBytes(b))
    } else if is_word(v, "editor:movePreviousWord") {
        let b: &'static [u8] = &[0x1b, 0x62];
        assert(b@ =~= seq![0x1bu8, 0x62u8]);
        Some(Command::PtyBytes(b))
    } else if is_word(v, "editor:moveNextWord") {
        let b: &'static [u8] = &[0x1b, 0x66];
        assert(b@ =~= seq![0x1bu8, 0x66u8]);
        Some(Command::PtyBytes(b))
    } else if is_word(v, "editor:moveBeginningLine") {
        let b: &'static [u8] = &[0x1b, 0x4f, 0x48];
        assert(b@ =~= seq![0x1bu8, 0x4fu8, 0x48u8]);
        Some(Command::PtyBytes(b))
    } else if is_word(v, "editor:moveEndLine") {
        let b: &'static [u8] = &[0x1b, 0x4f, 0x46];
        assert(b@ =~= seq![0x1bu8, 0x4fu8, 0x46u8]);
        Some(Command::PtyBytes(b))
    } else if is_word(v, "editor:deletePreviousWord") {
        let b: &'static [u8] = &[0x1b, 0x7f];
        assert(b@ =~= seq![0x1bu8, 0x7fu8]);
        Some(Command::PtyBytes(b))
    } else if is_word(v, "editor:deleteNextWord") {
        let b: &'static [u8] = &[0x1b, 0x64];
        assert(b@ =~= seq![0x1bu8, 0x64u8]);
        Some(Command::PtyBytes(b))
    } else if is_word(v, "editor:deleteBeginningLine") {
        let b: &'static [u8] = &[0x1b, 0x77];
        assert(b@ =~= seq![0x1bu8, 0x77u8]);
        Some(Command::PtyBytes(b))
    } else if is_word(v, "editor:deleteEndLine") {
        let b: &'static [u8] = &[0x0b];
        assert(b@ =~= seq![0x0bu8]);
        Some(Command::PtyBytes(b))
    } else if is_word(v, "tab:jump:last") {
        Some(Command::JumpTabLast)
    } else {
        None
    }
}

/// The rest of `v` after `prefix`, when `v` starts with it.
pub fn strip_prefix(v: &[char], prefix: &str) -> (r: Option<Vec<char>>)
    ensures
        match r {
            None => !starts_with(v@, prefix@),
            Some(rest) => starts_with(v@, prefix@) && rest@ == v@.skip(prefix@.len() as int),
        },
{
    let p = chars_of(prefix);
    if has_prefix(v, &p) {
        let rest = sub_chars(v, p.len(), v.len());
        assert(rest@ =~= v@.skip(prefix@.len() as int));
        Some(rest)
    } else {
        None
    }
}

/// Map a Hyper command name to a Command. Unknown / web-only commands
/// (devtools, reload, undo/redo/cut, plugins) return None and are skipped.
pub fn parse_command(name: &str) -> (r: Option<Command>)
    ensures
        match r {
            None => command_spec(name@) is None,
            Some(c) => command_spec(name@) == Some(c@),
        },
{
    let v = chars_of(name);
    if let Some(c) = fixed_command_of(&v) {
        return Some(c);
    }
    // Concrete jump slots: the command table registers tab:jump:1…8 and
    // tab:jump:last, so a user can rebind one slot on its own.
    if let Some(index) = strip_prefix(&v, "tab:jump:") {
        return match parse_u8(&index) {
            Some(n) => if 1 <= n && n <= 8 {
                Some(Command::JumpTab(n))
            } else {
                None
            },
            None => None,
        };
    }
    // Per-profile commands: "<base>:<profile name>".
    if let Some(profile) = strip_prefix(&v, "tab:new:") {
        return Some(Command::NewTabProfile(string_of(&profile)));
    }
    if let Some(profile) = strip_prefix(&v, "window:new:") {
        return Some(Command::NewWindowProfile(string_of(&profile)));
    }
    if let Some(profile) = strip_prefix(&v, "pane:splitRight:") {
        return Some(Command::SplitRightProfile(string_of(&profile)));
    }
    if let Some(profile) = strip_prefix(&v, "pane:splitDown:") {
        return Some(Command::SplitDownProfile(string_of(&profile)));
    }
    None
}

} // verus!
