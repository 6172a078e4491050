//! The settings editor's drafts: the user's own document being edited (never
//! the defaults-merged view), the raw JSON text of the same document, which
//! of them is the active editor, and the keymap field that shows a list of
//! bindings on one line.

use vstd::prelude::*;

use crate::config::strs_view;
use crate::json::{format_json, json_of_text, json_pretty, parse_json, copy_elems, law_get_after_set, set_at, get_at, get_path, lemma_view_elems, lemma_view_members, path_view, view_elems, view_members, Json, JsonV};
use crate::text::{
    is_ws, lemma_split_on_nonempty, append_chars, append_str, chars_of, copy_string, decimal, decimal_chars, digits_u64,
    digits_u64_spec, opt_view, split_chars, split_on, string_from, string_of, trim, trim_chars, trim_end,
    trim_end_chars, trim_start, views_of,
};

verus! {

broadcast use vstd::string::group_string_axioms;

// ---------------------------------------------------------------------------
// Text comparison
// ---------------------------------------------------------------------------

/// `s` with every CR LF turned into LF.
pub open spec fn lf_only(s: Seq<char>) -> Seq<char>
    decreases s.len(),
{
    if s.len() == 0 {
        s
    } else if s.len() >= 2 && s[0] == '\r' && s[1] == '\n' {
        seq!['\n'] + lf_only(s.skip(2))
    } else {
        seq![s[0]] + lf_only(s.drop_first())
    }
}

/// Line-ending and trailing-whitespace insensitive text, so that a file
/// saved by another editor does not read as an unsaved change.
pub open spec fn normalized_text(s: Seq<char>) -> Seq<char> {
    trim_end(lf_only(s))
}

pub fn normalize_text(text: &str) -> (r: String)
    ensures
        r@ == normalized_text(text@),
{
    let cs = chars_of(text);
    let mut out: Vec<char> = Vec::new();
    let mut i: usize = 0;
    assert(cs@.skip(0) =~= cs@);
    while i < cs.len()
        invariant
            0 <= i <= cs@.len(),
            out@ + lf_only(cs@.skip(i as int)) == lf_only(cs@),
        decreases cs@.len() - i,
    {
        let ghost rest = cs@.skip(i as int);
        if i + 1 < cs.len() && cs[i] == '\r' && cs[i + 1] == '\n' {
            out.push('\n');
            proof {
                assert(rest[0] == '\r' && rest[1] == '\n');
                assert(rest.skip(2) =~= cs@.skip(i + 2));
                assert(out@ + lf_only(cs@.skip(i + 2)) =~= lf_only(cs@));
            }
            i = i + 2;
        } else {
            out.push(cs[i]);
            proof {
                assert(rest[0] == cs@[i as int]);
                assert(rest.drop_first() =~= cs@.skip(i + 1));
                assert(out@ + lf_only(cs@.skip(i + 1)) =~= lf_only(cs@));
            }
            i = i + 1;
        }
    }
    proof {
        assert(cs@.skip(i as int) =~= Seq::<char>::empty());
        assert(out@ =~= lf_only(cs@));
    }
    let t = trim_end_chars(&out);
    string_of(&t)
}

// ---------------------------------------------------------------------------
// A list of bindings on one line
// ---------------------------------------------------------------------------

/// Bindings joined with `", "`.
pub open spec fn joined(parts: Seq<Seq<char>>) -> Seq<char>
    decreases parts.len(),
{
    if parts.len() == 0 {
        seq![]
    } else if parts.len() == 1 {
        parts[0]
    } else {
        joined(parts.drop_last()) + ", "@ + parts.last()
    }
}

/// The trimmed, non-empty pieces of `pieces`.
pub open spec fn cleaned(pieces: Seq<Seq<char>>) -> Seq<Seq<char>> {
    pieces.map_values(|p: Seq<char>| trim(p)).filter(|p: Seq<char>| p.len() > 0)
}

/// The bindings typed into the one-line field: split at commas, trimmed,
/// empty pieces dropped.
pub open spec fn binding_parts_spec(text: Seq<char>) -> Seq<Seq<char>> {
    cleaned(split_on(text, ','))
}

pub open spec fn str_items(items: Seq<JsonV>) -> Seq<Seq<char>> {
    items.filter(|j: JsonV| j is Str).map_values(|j: JsonV| crate::config::str_of(j))
}

/// What the field shows for a binding value: the string, or the strings of
/// a list joined with `", "`; nothing for any other value.
pub open spec fn binding_text_spec(v: JsonV) -> Seq<char> {
    match v {
        JsonV::Str(s) => s,
        JsonV::Array(items) => joined(str_items(items)),
        _ => seq![],
    }
}

/// The text of a binding value for the one-line field.
pub fn binding_text(v: &Json) -> (r: String)
    ensures
        r@ == binding_text_spec(v@),
{
    match v {
        Json::Str(s) => copy_string(s),
        Json::Array(items) => {
            let ghost iv = view_elems(items@);
            proof {
                lemma_view_elems(items@);
            }
            let mut out: Vec<char> = Vec::new();
            let mut count: usize = 0;
            let mut i: usize = 0;
            proof {
                assert(iv.take(0).filter(|j: JsonV| j is Str) =~= Seq::<JsonV>::empty());
            }
            while i < items.len()
                invariant
                    0 <= i <= items@.len(),
                    iv == view_elems(items@),
                    iv.len() == items@.len(),
                    forall|j: int| 0 <= j < items@.len() ==> #[trigger] iv[j] == items@[j]@,
                    count == str_items(iv.take(i as int)).len(),
                    out@ == joined(str_items(iv.take(i as int))),
                decreases items@.len() - i,
            {
                let ghost before = str_items(iv.take(i as int));
                proof {
                    assert(iv.take(i + 1) =~= iv.take(i as int).push(iv[i as int]));
                    iv.take(i as int).lemma_filter_push(iv[i as int], |j: JsonV| j is Str);
                }
                match &items[i] {
                    Json::Str(s) => {
                        if count > 0 {
                            append_str(&mut out, ", ");
                        }
                        let sc = chars_of(s.as_str());
                        crate::text::append_chars(&mut out, &sc);
                        count = count + 1;
                        proof {
                            let after = str_items(iv.take(i + 1));
                            assert(after =~= before.push(s@));
                            assert(after.drop_last() =~= before);
                            if before.len() == 0 {
                                assert(out@ =~= joined(after));
                            } else {
                                assert(out@ =~= joined(after));
                            }
                        }
                    },
                    _ => {
                        proof {
                            assert(str_items(iv.take(i + 1)) =~= before);
                        }
                    },
                }
                i = i + 1;
            }
            assert(iv.take(i as int) =~= iv);
            assert(v@ == JsonV::Array(iv));
            string_of(&out)
        },
        _ => {
            proof {
                reveal_strlit("");
            }
            crate::text::string_from("")
        },
    }
}

/// The bindings typed into the one-line field.
pub fn binding_parts(text: &str) -> (r: Vec<String>)
    ensures
        crate::config::strs_view(r@) == binding_parts_spec(text@),
{
    let cs = chars_of(text);
    let pieces = split_chars(&cs, ',');
    let ghost pv = views_of(pieces@);
    let mut out: Vec<String> = Vec::new();
    let mut i: usize = 0;
    while i < pieces.len()
        invariant
            0 <= i <= pieces@.len(),
            pv == views_of(pieces@),
            pv == split_on(text@, ','),
            crate::config::strs_view(out@) == cleaned(pv.take(i as int)),
        decreases pieces@.len() - i,
    {
        let t = trim_chars(&pieces[i]);
        let ghost before = crate::config::strs_view(out@);
        proof {
            let pre = pv.take(i as int);
            assert(pv.take(i + 1) =~= pre.push(pv[i as int]));
            assert(pv.take(i + 1).map_values(|p: Seq<char>| trim(p)) =~= pre.map_values(|p: Seq<char>| trim(p)).push(trim(pv[i as int])));
            pre.map_values(|p: Seq<char>| trim(p)).lemma_filter_push(trim(pv[i as int]), |p: Seq<char>| p.len() > 0);
            assert(pv[i as int] == pieces@[i as int]@);
        }
        if t.len() > 0 {
            out.push(string_of(&t));
            assert(crate::config::strs_view(out@) =~= before.push(t@));
        }
        i = i + 1;
    }
    assert(pv.take(i as int) =~= pv);
    out
}

/// The value written back for the field's text: a list when the value was
/// a list or the text holds several bindings, else the text itself.
pub fn binding_value(text: &str, was_array: bool) -> (r: Json)
    ensures
        r@ == if was_array || binding_parts_spec(text@).len() > 1 {
            JsonV::Array(binding_parts_spec(text@).map_values(|p: Seq<char>| JsonV::Str(p)))
        } else {
            JsonV::Str(text@)
        },
{
    let parts = binding_parts(text);
    if was_array || parts.len() > 1 {
        let mut items: Vec<Json> = Vec::new();
        let mut i: usize = 0;
        while i < parts.len()
            invariant
                0 <= i <= parts@.len(),
                view_elems(items@) == crate::config::strs_view(parts@).take(i as int).map_values(|p: Seq<char>| JsonV::Str(p)),
            decreases parts@.len() - i,
        {
            let ghost prev = items@;
            let e = Json::Str(copy_string(&parts[i]));
            items.push(e);
            proof {
                assert(items@.drop_last() =~= prev);
                crate::json::lemma_view_elems_push(prev, e);
                assert(view_elems(items@) =~= crate::config::strs_view(parts@).take(i + 1).map_values(|p: Seq<char>| JsonV::Str(p)));
            }
            i = i + 1;
        }
        assert(crate::config::strs_view(parts@).take(i as int) =~= crate::config::strs_view(parts@));
        Json::Array(items)
    } else {
        Json::Str(crate::text::string_from(text))
    }
}

proof fn lemma_split_concat(x: Seq<char>, y: Seq<char>, c: char)
    ensures
        split_on(x + seq![c] + y, c) == split_on(x, c) + split_on(y, c),
    decreases x.len(),
{
    let s = x + seq![c] + y;
    if x.len() == 0 {
        assert(s.drop_first() =~= y);
        assert(s[0] == c);
    } else {
        assert(s.drop_first() =~= x.drop_first() + seq![c] + y);
        assert(s[0] == x[0]);
        lemma_split_concat(x.drop_first(), y, c);
        lemma_split_on_nonempty(x.drop_first(), c);
        let rest = split_on(s.drop_first(), c);
        let a = split_on(x.drop_first(), c);
        if x[0] == c {
            assert(split_on(s, c) =~= seq![Seq::<char>::empty()] + rest);
        } else {
            assert(rest.update(0, seq![x[0]] + rest[0]) =~= a.update(0, seq![x[0]] + a[0]) + split_on(y, c));
        }
    }
}

proof fn lemma_split_without_sep(x: Seq<char>, c: char)
    requires
        !x.contains(c),
    ensures
        split_on(x, c) == seq![x],
    decreases x.len(),
{
    if x.len() > 0 {
        assert(!x.drop_first().contains(c)) by {
            if x.drop_first().contains(c) {
                let i = choose|i: int| 0 <= i < x.drop_first().len() && x.drop_first()[i] == c;
                assert(x[i + 1] == c);
            }
        }
        lemma_split_without_sep(x.drop_first(), c);
        assert(x[0] != c);
        assert(seq![x[0]] + x.drop_first() =~= x);
        assert(split_on(x, c) =~= seq![x]);
    } else {
        assert(x =~= Seq::<char>::empty());
    }
}

proof fn lemma_cleaned_add(a: Seq<Seq<char>>, b: Seq<Seq<char>>)
    ensures
        cleaned(a + b) == cleaned(a) + cleaned(b),
{
    let f = |p: Seq<char>| trim(p);
    assert((a + b).map_values(f) =~= a.map_values(f) + b.map_values(f));
    Seq::filter_distributes_over_add(a.map_values(f), b.map_values(f), |p: Seq<char>| p.len() > 0);
}

/// A list of bindings survives the one-line field: joined with `", "` and
/// split again, it comes back as it was, as long as each binding is
/// non-empty, has no surrounding spaces and no comma.
pub proof fn law_binding_list_round_trip(parts: Seq<Seq<char>>)
    requires
        forall|i: int| 0 <= i < parts.len() ==> (#[trigger] parts[i]).len() > 0 && trim(parts[i]) == parts[i]
            && !parts[i].contains(','),
    ensures
        binding_parts_spec(joined(parts)) == parts,
    decreases parts.len(),
{
    if parts.len() == 0 {
        assert(split_on(Seq::<char>::empty(), ',') == seq![Seq::<char>::empty()]);
        let m = seq![Seq::<char>::empty()].map_values(|p: Seq<char>| trim(p));
        assert(m =~= seq![Seq::<char>::empty()]);
        assert(m.filter(|p: Seq<char>| p.len() > 0) =~= Seq::<Seq<char>>::empty()) by {
            Seq::<Seq<char>>::empty().lemma_filter_push(Seq::<char>::empty(), |p: Seq<char>| p.len() > 0);
            assert(Seq::<Seq<char>>::empty().push(Seq::<char>::empty()) =~= m);
        }
    } else if parts.len() == 1 {
        lemma_split_without_sep(parts[0], ',');
        let m = seq![parts[0]].map_values(|p: Seq<char>| trim(p));
        assert(m =~= seq![parts[0]]);
        Seq::<Seq<char>>::empty().lemma_filter_push(parts[0], |p: Seq<char>| p.len() > 0);
        assert(Seq::<Seq<char>>::empty().push(parts[0]) =~= m);
        assert(Seq::<Seq<char>>::empty().filter(|p: Seq<char>| p.len() > 0) =~= Seq::<Seq<char>>::empty());
        assert(parts =~= seq![parts[0]]);
    } else {
        let init = parts.drop_last();
        let last = parts.last();
        law_binding_list_round_trip(init);
        reveal_strlit(", ");
        let tail = seq![' '] + last;
        assert(joined(parts) =~= joined(init) + seq![','] + tail);
        lemma_split_concat(joined(init), tail, ',');
        assert(!tail.contains(',')) by {
            if tail.contains(',') {
                let i = choose|i: int| 0 <= i < tail.len() && tail[i] == ',';
                assert(i > 0);
                assert(last[i - 1] == ',');
            }
        }
        lemma_split_without_sep(tail, ',');
        lemma_cleaned_add(split_on(joined(init), ','), seq![tail]);
        assert(is_ws(' '));
        assert(tail.drop_first() =~= last);
        assert(trim_start(tail) == trim_start(last));
        assert(trim(tail) == last);
        let m = seq![tail].map_values(|p: Seq<char>| trim(p));
        assert(m =~= seq![last]);
        Seq::<Seq<char>>::empty().lemma_filter_push(last, |p: Seq<char>| p.len() > 0);
        assert(Seq::<Seq<char>>::empty().push(last) =~= m);
        assert(Seq::<Seq<char>>::empty().filter(|p: Seq<char>| p.len() > 0) =~= Seq::<Seq<char>>::empty());
        assert(cleaned(seq![tail]) =~= seq![last]);
        assert(init.push(last) =~= parts);
    }
}

// ---------------------------------------------------------------------------
// The drafts
// ---------------------------------------------------------------------------

/// The editor sections; `Json` is the raw text editor, every other one
/// edits the document.
#[derive(Debug, Clone, Copy, PartialEq, Eq, Structural)]
pub enum Section {
    Profiles,
    Themes,
    App,
    Terminal,
    Advanced,
    Keymaps,
    Json,
}

/// A JSON text as the app's parser read it.
pub enum ParsedText {
    Value(Json),
    /// The parser's message.
    Invalid(String),
}

/// The editor's state: drafts of the user's document (never the defaults
/// merged over it: saving that would pin every default into the file).
pub struct SettingsDraft {
    pub section: Section,
    /// Draft of the user's document: what gets written back.
    pub doc: Json,
    /// The user's document as last read or written.
    pub saved_doc: Json,
    /// The shipped defaults, shown where the user sets nothing.
    pub defaults: Json,
    pub json_text: String,
    pub saved_text: String,
    pub json_error: Option<String>,
    /// The file changed under an unsaved draft.
    pub reload_requested: bool,
    pub loaded_generation: u64,
    pub status: Option<String>,
}

/// Ahead of showing the editor: what to do about the file having changed.
#[derive(Debug, Clone, Copy, PartialEq, Eq)]
pub enum ReloadDecision {
    /// Nothing changed.
    Keep,
    /// Take the file's new contents.
    Reload,
    /// Keep the unsaved draft and warn that the file changed.
    Warn,
}

impl SettingsDraft {
    /// An empty draft over the given defaults, on the first section.
    pub fn new(defaults: Json) -> (r: SettingsDraft)
        ensures
            r.section == Section::Profiles,
            r.doc@ == JsonV::Object(seq![]),
            r.saved_doc@ == JsonV::Object(seq![]),
            r.defaults@ == defaults@,
            r.json_text@.len() == 0 && r.saved_text@.len() == 0,
            r.json_error is None && r.status is None && !r.reload_requested && r.loaded_generation == 0,
    {
        let doc = Json::Object(Vec::new());
        let saved = Json::Object(Vec::new());
        proof {
            assert(view_members(Seq::<(String, Json)>::empty()) =~= Seq::<(Seq<char>, JsonV)>::empty());
            reveal_strlit("");
        }
        SettingsDraft {
            section: Section::Profiles,
            doc,
            saved_doc: saved,
            defaults,
            json_text: crate::text::string_from(""),
            saved_text: crate::text::string_from(""),
            json_error: None,
            reload_requested: false,
            loaded_generation: 0,
            status: None,
        }
    }

    /// The value shown for `path`: the user's, else the default (for
    /// display only).
    pub fn effective(&self, path: &[&str]) -> (r: Option<&Json>)
        ensures
            crate::config::opt_json(r) == match get_at(self.doc@, path_view(path@)) {
                Some(v) => Some(v),
                None => get_at(self.defaults@, path_view(path@)),
            },
    {
        match get_path(&self.doc, path) {
            Some(v) => Some(v),
            None => get_path(&self.defaults, path),
        }
    }

    /// The document draft differs from the document as saved.
    pub fn visual_dirty(&self) -> (r: bool)
        ensures
            r == (self.doc@ != self.saved_doc@),
    {
        !self.doc.same(&self.saved_doc)
    }

    /// The text draft differs from the text as saved, line endings and
    /// trailing whitespace aside.
    pub fn text_dirty(&self) -> (r: bool)
        ensures
            r == (normalized_text(self.json_text@) != normalized_text(self.saved_text@)),
    {
        let a = normalize_text(self.json_text.as_str());
        let b = normalize_text(self.saved_text.as_str());
        !crate::text::str_eq(a.as_str(), b.as_str())
    }

    /// Unsaved work in the active editor (the other one is re-synced from it
    /// on every switch).
    pub fn dirty(&self) -> (r: bool)
        ensures
            r == if self.section == Section::Json {
                normalized_text(self.json_text@) != normalized_text(self.saved_text@)
            } else {
                self.doc@ != self.saved_doc@
            },
    {
        if self.section == Section::Json {
            self.text_dirty()
        } else {
            self.visual_dirty()
        }
    }

    /// Take the user's document as read. The JSON tab shows the file's own
    /// text, so that its key order and layout stay the user's; with no file
    /// text, the document's pretty JSON.
    pub fn load_from(&mut self, user_document: &Json, user_text: Option<&str>, generation: u64)
        ensures
            final(self).doc@ == user_document@,
            final(self).saved_doc@ == user_document@,
            final(self).json_text@ == match user_text {
                Some(t) => t@,
                None => json_pretty(user_document@).push('\n'),
            },
            final(self).saved_text@ == final(self).json_text@,
            final(self).json_error is None,
            !final(self).reload_requested,
            final(self).loaded_generation == generation,
            final(self).status is None,
            final(self).section == old(self).section,
            final(self).defaults == old(self).defaults,
    {
        self.doc = user_document.copy();
        self.saved_doc = user_document.copy();
        let text = match user_text {
            Some(t) => crate::text::string_from(t),
            None => format_json(user_document),
        };
        self.saved_text = copy_string(&text);
        self.json_text = text;
        self.json_error = None;
        self.reload_requested = false;
        self.loaded_generation = generation;
        self.status = None;
    }

    /// Whether opening the editor loads the file: always, unless there is
    /// unsaved work on a file that has not changed since.
    pub fn should_load_on_open(&self, generation: u64) -> (r: bool)
        ensures
            r == (!(if self.section == Section::Json {
                normalized_text(self.json_text@) != normalized_text(self.saved_text@)
            } else {
                self.doc@ != self.saved_doc@
            }) || self.loaded_generation != generation),
    {
        !self.dirty() || self.loaded_generation != generation
    }

    /// The file changed on disk (generation `generation`): reload a clean
    /// draft; keep an unsaved one and say so.
    pub fn on_file_change(&mut self, generation: u64) -> (r: ReloadDecision)
        ensures
            old(self).loaded_generation == generation ==> r == ReloadDecision::Keep,
            old(self).loaded_generation != generation ==> r == if (if old(self).section == Section::Json {
                normalized_text(old(self).json_text@) != normalized_text(old(self).saved_text@)
            } else {
                old(self).doc@ != old(self).saved_doc@
            }) {
                ReloadDecision::Warn
            } else {
                ReloadDecision::Reload
            },
            final(self).reload_requested == (old(self).reload_requested || r == ReloadDecision::Warn),
            final(self).doc == old(self).doc && final(self).saved_doc == old(self).saved_doc,
            final(self).json_text == old(self).json_text && final(self).saved_text == old(self).saved_text,
            final(self).section == old(self).section && final(self).loaded_generation == old(self).loaded_generation,
    {
        if self.loaded_generation == generation {
            return ReloadDecision::Keep;
        }
        if self.dirty() {
            self.reload_requested = true;
            ReloadDecision::Warn
        } else {
            ReloadDecision::Reload
        }
    }

    /// Move between the document editor and the raw JSON tab, carrying the
    /// draft across: into the JSON tab the document goes as its pretty JSON
    /// text; out of it the text goes back as the document when it parses to
    /// an object. A text that does not parse, or is not an object, keeps the
    /// user on the JSON tab with the text intact and an error shown.
    pub fn switch_to(&mut self, section: Section)
        ensures
            section == old(self).section ==> *final(self) == *old(self),
            section != old(self).section && section == Section::Json ==> final(self).section == Section::Json
                && final(self).json_text@ == json_pretty(old(self).doc@).push('\n') && final(self).json_error is None
                && final(self).doc == old(self).doc,
            section != old(self).section && section != Section::Json && old(self).section != Section::Json
                ==> final(self).section == section && final(self).doc == old(self).doc && final(self).json_text
                == old(self).json_text && final(self).json_error == old(self).json_error,
            section != old(self).section && section != Section::Json && old(self).section == Section::Json
                ==> final(self).json_text == old(self).json_text && match json_of_text(old(self).json_text@) {
                Ok(v) => if v is Object {
                    final(self).section == section && final(self).doc@ == v && final(self).json_error is None
                } else {
                    final(self).section == Section::Json && final(self).doc == old(self).doc
                        && (final(self).json_error matches Some(e) && e@
                        == "Configuration root must be a JSON object."@)
                },
                Err(m) => final(self).section == Section::Json && final(self).doc == old(self).doc
                    && (final(self).json_error matches Some(e) && e@
                    == "Fix JSON errors before switching back to the visual editor: "@ + m),
            },
            final(self).saved_doc == old(self).saved_doc && final(self).saved_text == old(self).saved_text,
            final(self).defaults == old(self).defaults && final(self).status == old(self).status,
            final(self).reload_requested == old(self).reload_requested,
            final(self).loaded_generation == old(self).loaded_generation,
    {
        let formatted = if section != self.section && section == Section::Json {
            format_json(&self.doc)
        } else {
            String::new()
        };
        let parsed = if section != self.section && section != Section::Json && self.section == Section::Json {
            match parse_json(self.json_text.as_str()) {
                Ok(v) => ParsedText::Value(v),
                Err(e) => ParsedText::Invalid(e),
            }
        } else {
            ParsedText::Invalid(String::new())
        };
        self.switch_with(section, formatted, parsed);
    }

    /// [`SettingsDraft::switch_to`] with the document's formatted text and
    /// the JSON tab's parse given.
    pub fn switch_with(&mut self, section: Section, formatted: String, parsed: ParsedText)
        ensures
            section == old(self).section ==> *final(self) == *old(self),
            section != old(self).section && section == Section::Json ==> final(self).section == Section::Json
                && final(self).json_text@ == formatted@ && final(self).json_error is None && final(self).doc
                == old(self).doc,
            section != old(self).section && section != Section::Json && old(self).section != Section::Json
                ==> final(self).section == section && final(self).doc == old(self).doc && final(self).json_text
                == old(self).json_text && final(self).json_error == old(self).json_error,
            section != old(self).section && section != Section::Json && old(self).section == Section::Json
                ==> final(self).json_text == old(self).json_text && match parsed {
                ParsedText::Value(v) => if v@ is Object {
                    final(self).section == section && final(self).doc@ == v@ && final(self).json_error is None
                } else {
                    final(self).section == Section::Json && final(self).doc == old(self).doc
                        && (final(self).json_error matches Some(e) && e@
                        == "Configuration root must be a JSON object."@)
                },
                ParsedText::Invalid(m) => final(self).section == Section::Json && final(self).doc == old(self).doc
                    && (final(self).json_error matches Some(e) && e@
                    == "Fix JSON errors before switching back to the visual editor: "@ + m@),
            },
            final(self).saved_doc == old(self).saved_doc && final(self).saved_text == old(self).saved_text,
            final(self).defaults == old(self).defaults && final(self).status == old(self).status,
            final(self).reload_requested == old(self).reload_requested,
            final(self).loaded_generation == old(self).loaded_generation,
    {
        if section == self.section {
            return;
        }
        if section == Section::Json {
            self.json_text = formatted;
            self.json_error = None;
            self.section = section;
            return;
        }
        if self.section == Section::Json {
            match parsed {
                ParsedText::Value(v) => {
                    if v.is_object() {
                        self.doc = v;
                        self.json_error = None;
                    } else {
                        self.json_error = Some(crate::text::string_from("Configuration root must be a JSON object."));
                        return;
                    }
                },
                ParsedText::Invalid(m) => {
                    let mut e = chars_of("Fix JSON errors before switching back to the visual editor: ");
                    let mc = chars_of(m.as_str());
                    crate::text::append_chars(&mut e, &mc);
                    self.json_error = Some(string_of(&e));
                    return;
                },
            }
        }
        self.section = section;
    }

    /// What a save writes, and the document it stands for: from the JSON
    /// tab its literal text (refused with the parser's message when it is
    /// not JSON), from the other tabs the document's pretty JSON. Either way
    /// the text then goes through [`crate::snapshot::save_bytes`].
    pub fn save_source(&self) -> (r: Result<(String, Json), String>)
        ensures
            self.section == Section::Json ==> match json_of_text(self.json_text@) {
                Ok(v) => r matches Ok((t, d)) && t@ == self.json_text@ && d@ == v,
                Err(e) => r matches Err(m) && m@ == e,
            },
            self.section != Section::Json ==> (r matches Ok((t, d)) && t@ == json_pretty(self.doc@).push('\n')
                && d@ == self.doc@),
    {
        if self.section == Section::Json {
            match parse_json(self.json_text.as_str()) {
                Ok(v) => Ok((copy_string(&self.json_text), v)),
                Err(e) => Err(e),
            }
        } else {
            Ok((format_json(&self.doc), self.doc.copy()))
        }
    }

    /// A save went through: `text` was written, and `doc` is what it
    /// parses to; both become the saved state and the drafts.
    pub fn save_succeeded(&mut self, text: String, doc: Json, path: &str)
        ensures
            final(self).doc@ == doc@ && final(self).saved_doc@ == doc@,
            final(self).json_text@ == text@ && final(self).saved_text@ == text@,
            final(self).json_error is None && !final(self).reload_requested,
            final(self).status matches Some(s) && s@ == "Saved "@ + path@,
            final(self).section == old(self).section && final(self).defaults == old(self).defaults,
            final(self).loaded_generation == old(self).loaded_generation,
    {
        self.saved_doc = doc.copy();
        self.doc = doc;
        self.saved_text = copy_string(&text);
        self.json_text = text;
        self.json_error = None;
        self.reload_requested = false;
        let mut s = chars_of("Saved ");
        let p = chars_of(path);
        crate::text::append_chars(&mut s, &p);
        self.status = Some(string_of(&s));
    }

    /// A save failed with `err`: the drafts stay as they are.
    pub fn save_failed(&mut self, err: String)
        ensures
            final(self).json_error matches Some(e) && e@ == err@,
            final(self).status matches Some(s) && s@ == "Save failed: "@ + err@,
            final(self).doc == old(self).doc && final(self).saved_doc == old(self).saved_doc,
            final(self).json_text == old(self).json_text && final(self).saved_text == old(self).saved_text,
            final(self).section == old(self).section,
    {
        let mut s = chars_of("Save failed: ");
        let e = chars_of(err.as_str());
        crate::text::append_chars(&mut s, &e);
        self.status = Some(string_of(&s));
        self.json_error = Some(err);
    }

    /// Unset the key at `path` so its default applies again; writing the
    /// default in its place would pin it forever.
    pub fn reset(&mut self, path: &[&str])
        ensures
            final(self).doc@ == crate::json::remove_at(old(self).doc@, path_view(path@)),
            final(self).status is None,
            final(self).saved_doc == old(self).saved_doc && final(self).section == old(self).section,
    {
        crate::json::remove_path(&mut self.doc, path);
        self.status = None;
    }
}

impl Json {
    pub fn is_object(&self) -> (r: bool)
        ensures
            r == (self@ is Object),
    {
        match self {
            Json::Object(_) => true,
            _ => false,
        }
    }
}

// ---------------------------------------------------------------------------
// Testing an SSH profile
// ---------------------------------------------------------------------------

/// The value shown at `path`: the user's, else the default.
pub open spec fn effective_at(doc: JsonV, defaults: JsonV, path: Seq<Seq<char>>) -> Option<JsonV> {
    match get_at(doc, path) {
        Some(v) => Some(v),
        None => get_at(defaults, path),
    }
}

/// The path of field `f` of the SSH settings of profile `idx`.
pub open spec fn ssh_path(idx: nat, f: Seq<char>) -> Seq<Seq<char>> {
    seq!["config"@, "profiles"@, decimal(idx), "ssh"@, f]
}

/// A string field of the SSH settings of profile `idx`, as shown.
pub open spec fn ssh_text(doc: JsonV, defaults: JsonV, idx: nat, f: Seq<char>) -> Option<Seq<char>> {
    match effective_at(doc, defaults, ssh_path(idx, f)) {
        Some(JsonV::Str(t)) => Some(t),
        _ => None,
    }
}

/// The port of profile `idx`, when it is shown as an unsigned integer.
pub open spec fn ssh_port(doc: JsonV, defaults: JsonV, idx: nat) -> Option<u64> {
    match effective_at(doc, defaults, ssh_path(idx, "port"@)) {
        Some(JsonV::Number(t)) => digits_u64_spec(t),
        _ => None,
    }
}

/// How to try a connection: the arguments of `ssh` (ending with the
/// `user@host` target and the remote command `exit`), and the password
/// to hand over through the askpass helper when password authentication
/// is asked for.
#[derive(Debug, Clone, PartialEq, Eq)]
pub struct SshTestPlan {
    pub args: Vec<String>,
    pub password_auth: bool,
    pub password: Option<String>,
}

pub open spec fn opt_seq(o: Option<u64>) -> Seq<Seq<char>> {
    match o {
        Some(p) => seq!["-p"@, decimal(p as nat)],
        None => Seq::empty(),
    }
}

/// The `ssh` arguments of a connection test: an 8 s timeout, new host keys
/// accepted, the port when one is set; with password authentication, only
/// that; otherwise batch mode (no prompts), with the identity file when
/// one is named.
pub open spec fn ssh_test_args(
    host: Seq<char>,
    user: Seq<char>,
    port: Option<u64>,
    identity: Option<Seq<char>>,
    password_auth: bool,
) -> Seq<Seq<char>> {
    seq!["-o"@, "ConnectTimeout=8"@, "-o"@, "StrictHostKeyChecking=accept-new"@] + opt_seq(port) + if password_auth {
        seq!["-o"@, "PreferredAuthentications=password"@, "-o"@, "PubkeyAuthentication=no"@]
    } else {
        seq!["-o"@, "BatchMode=yes"@] + match identity {
            Some(i) if i.len() > 0 => seq!["-i"@, i],
            _ => Seq::empty(),
        }
    } + seq![user + "@"@ + host, "exit"@]
}

impl SettingsDraft {
    /// A string field of a profile's SSH settings, as shown.
    fn ssh_field(&self, idx: &str, f: &str) -> (r: Option<String>)
        ensures
            opt_view(r) == match effective_at(self.doc@, self.defaults@, seq!["config"@, "profiles"@, idx@, "ssh"@, f@]) {
                Some(JsonV::Str(t)) => Some(t),
                _ => None,
            },
    {
        let mut path: Vec<&str> = Vec::new();
        path.push("config");
        path.push("profiles");
        path.push(idx);
        path.push("ssh");
        path.push(f);
        assert(path_view(path@) =~= seq!["config"@, "profiles"@, idx@, "ssh"@, f@]);
        match self.effective(path.as_slice()) {
            Some(Json::Str(t)) => Some(copy_string(t)),
            _ => None,
        }
    }

    /// Plan a connection test of profile `profile_idx` from the settings as
    /// shown; a host and a user are required.
    pub fn ssh_test_plan(&self, profile_idx: usize) -> (r: Result<SshTestPlan, String>)
        ensures
            ({
                let d = self.doc@;
                let dd = self.defaults@;
                let i = profile_idx as nat;
                let host = match ssh_text(d, dd, i, "host"@) { Some(t) => t, None => Seq::empty() };
                let user = match ssh_text(d, dd, i, "user"@) { Some(t) => t, None => Seq::empty() };
                let password_auth = ssh_text(d, dd, i, "authType"@) == Some("password"@);
                if host.len() == 0 || user.len() == 0 {
                    r matches Err(e) && e@ == "host and user are required"@
                } else {
                    r matches Ok(plan) && strs_view(plan.args@) == ssh_test_args(
                        host,
                        user,
                        ssh_port(d, dd, i),
                        ssh_text(d, dd, i, "identityFile"@),
                        password_auth,
                    ) && plan.password_auth == password_auth && opt_view(plan.password) == if password_auth {
                        ssh_text(d, dd, i, "password"@)
                    } else {
                        None
                    }
                }
            }),
    {
        let idx_chars = decimal_chars(profile_idx as u64);
        let idx = string_of(&idx_chars);
        let ghost ip = decimal(profile_idx as nat);
        assert(idx@ == ip);
        let host = match self.ssh_field(idx.as_str(), "host") {
            Some(h) => h,
            None => String::new(),
        };
        let user = match self.ssh_field(idx.as_str(), "user") {
            Some(u) => u,
            None => String::new(),
        };
        if host.as_str().unicode_len() == 0 || user.as_str().unicode_len() == 0 {
            return Err(string_from("host and user are required"));
        }
        let mut port_path: Vec<&str> = Vec::new();
        port_path.push("config");
        port_path.push("profiles");
        port_path.push(idx.as_str());
        port_path.push("ssh");
        port_path.push("port");
        assert(path_view(port_path@) =~= ssh_path(profile_idx as nat, "port"@));
        let port: Option<u64> = match self.effective(port_path.as_slice()) {
            Some(Json::Number(t)) => {
                let tc = chars_of(t.as_str());
                digits_u64(&tc)
            },
            _ => None,
        };
        let identity = self.ssh_field(idx.as_str(), "identityFile");
        let auth = self.ssh_field(idx.as_str(), "authType");
        let password_auth = match &auth {
            Some(a) => crate::text::str_eq(a.as_str(), "password"),
            None => false,
        };
        let password = if password_auth {
            self.ssh_field(idx.as_str(), "password")
        } else {
            None
        };
        let mut args: Vec<String> = Vec::new();
        args.push(string_from("-o"));
        args.push(string_from("ConnectTimeout=8"));
        args.push(string_from("-o"));
        args.push(string_from("StrictHostKeyChecking=accept-new"));
        let ghost a0 = strs_view(args@);
        match port {
            Some(p) => {
                args.push(string_from("-p"));
                args.push(string_of(&decimal_chars(p)));
            },
            None => {},
        }
        let ghost a1 = strs_view(args@);
        if password_auth {
            args.push(string_from("-o"));
            args.push(string_from("PreferredAuthentications=password"));
            args.push(string_from("-o"));
            args.push(string_from("PubkeyAuthentication=no"));
        } else {
            args.push(string_from("-o"));
            args.push(string_from("BatchMode=yes"));
            match &identity {
                Some(i) => {
                    if i.as_str().unicode_len() > 0 {
                        args.push(string_from("-i"));
                        args.push(copy_string(i));
                    }
                },
                None => {},
            }
        }
        let ghost a2 = strs_view(args@);
        let mut target = chars_of(user.as_str());
        append_str(&mut target, "@");
        append_str(&mut target, host.as_str());
        args.push(string_of(&target));
        args.push(string_from("exit"));
        proof {
            assert(a0 =~= seq!["-o"@, "ConnectTimeout=8"@, "-o"@, "StrictHostKeyChecking=accept-new"@]);
            assert(a1 =~= a0 + opt_seq(port));
            assert(a2 =~= a1 + if password_auth {
                seq!["-o"@, "PreferredAuthentications=password"@, "-o"@, "PubkeyAuthentication=no"@]
            } else {
                seq!["-o"@, "BatchMode=yes"@] + match identity {
                    Some(i) if i@.len() > 0 => seq!["-i"@, i@],
                    _ => Seq::<Seq<char>>::empty(),
                }
            });
            assert(strs_view(args@) =~= a2 + seq![user@ + "@"@ + host@, "exit"@]);
        }
        Ok(SshTestPlan { args, password_auth, password })
    }
}

// ---------------------------------------------------------------------------
// The profile list
// ---------------------------------------------------------------------------

/// A new, empty profile named `name`.
pub open spec fn blank_profile(name: Seq<char>) -> JsonV {
    JsonV::Object(seq![("name"@, JsonV::Str(name)), ("config"@, JsonV::Object(seq![]))])
}

pub open spec fn profiles_path() -> Seq<Seq<char>> {
    seq!["config"@, "profiles"@]
}

/// The profiles the editor shows: the user's list, else the defaults', else
/// a single profile named `default`.
pub open spec fn profiles_shown(doc: JsonV, defaults: JsonV) -> Seq<JsonV> {
    match effective_at(doc, defaults, profiles_path()) {
        Some(JsonV::Array(a)) => a,
        _ => seq![blank_profile("default"@)],
    }
}

/// The document with the shown profile list written into it, unless it has
/// a list of its own already: an edit of one profile keeps the others.
pub open spec fn seeded(doc: JsonV, defaults: JsonV) -> JsonV {
    if get_at(doc, profiles_path()) matches Some(JsonV::Array(_)) {
        doc
    } else {
        set_at(doc, profiles_path(), JsonV::Array(profiles_shown(doc, defaults)))
    }
}

/// The draft's profile list once seeded.
pub open spec fn draft_profiles(doc: JsonV, defaults: JsonV) -> Seq<JsonV> {
    match get_at(seeded(doc, defaults), profiles_path()) {
        Some(JsonV::Array(a)) => a,
        _ => Seq::empty(),
    }
}

/// Seeding keeps the shown list: the draft's list is the one shown.
pub proof fn lemma_draft_is_shown(doc: JsonV, defaults: JsonV)
    ensures
        draft_profiles(doc, defaults) == profiles_shown(doc, defaults),
        get_at(seeded(doc, defaults), profiles_path()) == Some(JsonV::Array(profiles_shown(doc, defaults))),
{
    if get_at(doc, profiles_path()) matches Some(JsonV::Array(_)) {
    } else {
        law_get_after_set(doc, profiles_path(), JsonV::Array(profiles_shown(doc, defaults)));
    }
}

impl SettingsDraft {
    /// The profiles shown in the editor.
    pub fn profiles_view(&self) -> (r: Vec<Json>)
        ensures
            view_elems(r@) == profiles_shown(self.doc@, self.defaults@),
    {
        let mut path: Vec<&str> = Vec::new();
        path.push("config");
        path.push("profiles");
        assert(path_view(path@) =~= profiles_path());
        match self.effective(path.as_slice()) {
            Some(Json::Array(a)) => copy_elems(a),
            _ => {
                let v = vec![blank_profile_json("default")];
                proof {
                    lemma_view_elems(v@);
                    assert(view_elems(v@) =~= seq![blank_profile("default"@)]);
                }
                v
            },
        }
    }

    /// The draft's own profile list, written into the draft first when it
    /// has none (so that adding or removing one keeps the rest).
    fn profiles_draft(&mut self) -> (r: Vec<Json>)
        ensures
            final(self).doc@ == seeded(old(self).doc@, old(self).defaults@),
            get_at(final(self).doc@, profiles_path()) == Some(JsonV::Array(view_elems(r@))),
            view_elems(r@) == profiles_shown(old(self).doc@, old(self).defaults@),
            final(self).defaults == old(self).defaults,
            final(self).saved_doc == old(self).saved_doc,
            final(self).section == old(self).section,
            final(self).status == old(self).status,
    {
        let mut path: Vec<&str> = Vec::new();
        path.push("config");
        path.push("profiles");
        assert(path_view(path@) =~= profiles_path());
        proof {
            lemma_draft_is_shown(self.doc@, self.defaults@);
        }
        let own = match get_path(&self.doc, path.as_slice()) {
            Some(Json::Array(a)) => Some(copy_elems(a)),
            _ => None,
        };
        match own {
            Some(a) => a,
            None => {
                let shown = self.profiles_view();
                let seed = copy_elems(&shown);
                crate::json::set_path(&mut self.doc, path.as_slice(), Json::Array(seed));
                proof {
                    law_get_after_set(old(self).doc@, profiles_path(), JsonV::Array(view_elems(shown@)));
                }
                shown
            },
        }
    }

    /// Add a profile named `profile-N` (N: the new count) at the end of the
    /// list; returns its index.
    pub fn add_profile(&mut self) -> (r: usize)
        requires
            profiles_shown(old(self).doc@, old(self).defaults@).len() < usize::MAX,
        ensures
            ({
                let s0 = seeded(old(self).doc@, old(self).defaults@);
                let list = draft_profiles(old(self).doc@, old(self).defaults@);
                &&& r == list.len()
                &&& final(self).doc@ == set_at(
                    s0,
                    profiles_path(),
                    JsonV::Array(list.push(blank_profile("profile-"@ + decimal((list.len() + 1) as nat)))),
                )
            }),
            final(self).status is None,
            final(self).defaults == old(self).defaults,
            final(self).saved_doc == old(self).saved_doc,
            final(self).section == old(self).section,
    {
        let mut list = self.profiles_draft();
        let n = list.len();
        proof {
            lemma_view_elems(list@);
            lemma_draft_is_shown(old(self).doc@, old(self).defaults@);
            assert(n < usize::MAX);
        }
        let mut name = chars_of("profile-");
        append_chars(&mut name, &decimal_chars((n as u64) + 1));
        let ghost before = view_elems(list@);
        let ghost before_list = list@;
        list.push(blank_profile_json_chars(&name));
        proof {
            assert(list@.drop_last() =~= before_list);
            assert(view_elems(list@) =~= before.push(blank_profile(name@)));
        }
        let mut path: Vec<&str> = Vec::new();
        path.push("config");
        path.push("profiles");
        assert(path_view(path@) =~= profiles_path());
        crate::json::set_path(&mut self.doc, path.as_slice(), Json::Array(list));
        self.status = None;
        n
    }

    /// Delete the profile at `idx` when more than one is shown; returns
    /// whether it was deleted.
    pub fn delete_profile(&mut self, idx: usize) -> (r: bool)
        ensures
            r == (profiles_shown(old(self).doc@, old(self).defaults@).len() > 1 && idx < profiles_shown(
                old(self).doc@,
                old(self).defaults@,
            ).len()),
            r ==> ({
                let s0 = seeded(old(self).doc@, old(self).defaults@);
                let list = draft_profiles(old(self).doc@, old(self).defaults@);
                &&& final(self).doc@ == set_at(s0, profiles_path(), JsonV::Array(list.remove(idx as int)))
                &&& final(self).status is None
            }),
            !r ==> final(self).doc == old(self).doc && final(self).status == old(self).status,
            final(self).defaults == old(self).defaults,
            final(self).saved_doc == old(self).saved_doc,
            final(self).section == old(self).section,
    {
        let shown = self.profiles_view();
        proof {
            lemma_view_elems(shown@);
        }
        if !(shown.len() > 1 && idx < shown.len()) {
            return false;
        }
        let mut list = self.profiles_draft();
        proof {
            lemma_view_elems(list@);
            lemma_draft_is_shown(old(self).doc@, old(self).defaults@);
        }
        let ghost before = view_elems(list@);
        list.remove(idx);
        proof {
            lemma_view_elems(list@);
            assert(view_elems(list@) =~= before.remove(idx as int));
        }
        let mut path: Vec<&str> = Vec::new();
        path.push("config");
        path.push("profiles");
        assert(path_view(path@) =~= profiles_path());
        crate::json::set_path(&mut self.doc, path.as_slice(), Json::Array(list));
        self.status = None;
        true
    }

    /// Make `name` the default profile.
    pub fn set_default_profile(&mut self, name: &str)
        ensures
            final(self).doc@ == set_at(old(self).doc@, seq!["config"@, "defaultProfile"@], JsonV::Str(name@)),
            final(self).status is None,
            final(self).defaults == old(self).defaults,
            final(self).saved_doc == old(self).saved_doc,
            final(self).section == old(self).section,
    {
        let mut path: Vec<&str> = Vec::new();
        path.push("config");
        path.push("defaultProfile");
        assert(path_view(path@) =~= seq!["config"@, "defaultProfile"@]);
        crate::json::set_path(&mut self.doc, path.as_slice(), Json::Str(string_from(name)));
        self.status = None;
    }
}

fn blank_profile_json(name: &str) -> (r: Json)
    ensures
        r@ == blank_profile(name@),
{
    let v = chars_of(name);
    blank_profile_json_chars(&v)
}

fn blank_profile_json_chars(name: &Vec<char>) -> (r: Json)
    ensures
        r@ == blank_profile(name@),
{
    let mut m: Vec<(String, Json)> = Vec::new();
    m.push((string_from("name"), Json::Str(string_of(name))));
    m.push((string_from("config"), Json::Object(Vec::new())));
    proof {
        lemma_view_members(m@);
        assert(view_members(Seq::<(String, Json)>::empty()) =~= Seq::<(Seq<char>, JsonV)>::empty());
        assert(view_members(m@) =~= seq![("name"@, JsonV::Str(name@)), ("config"@, JsonV::Object(seq![]))]);
    }
    Json::Object(m)
}

} // verus!
