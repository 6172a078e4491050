//! The config file's profile entries and small option types, with the
//! rules the app applies to them: which bell setting sounds, which SSH
//! profile uses password authentication, default profile selection and
//! profile-name normalization.

use vstd::prelude::*;

use crate::json::{Json, JsonV, Members, view_members};
use crate::text::{
    chars_eq_ignore_ascii_case, chars_of, decimal, decimal_chars, eq_ignore_ascii_case, str_eq,
    copy_string, string_from, string_of, strip_px, strip_px_chars, trim, trim_chars, views_of, words,
    words_of,
};

verus! {

broadcast use vstd::string::group_string_axioms;

/// `bell`: `"SOUND"` or `false`.
#[derive(Debug, Clone, PartialEq)]
pub enum Bell {
    Mode(String),
    Off(bool),
}

impl Bell {
    /// Whether the bell plays a sound: a mode of `sound` in any letter case.
    pub fn is_sound(&self) -> (r: bool)
        ensures
            r == (self matches Bell::Mode(m) && eq_ignore_ascii_case(m@, "sound"@)),
    {
        match self {
            Bell::Mode(m) => {
                let mc = chars_of(m.as_str());
                let sc = chars_of("sound");
                chars_eq_ignore_ascii_case(&mc, &sc)
            },
            Bell::Off(_) => false,
        }
    }
}

impl Default for Bell {
    fn default() -> (r: Bell)
        ensures
            r matches Bell::Mode(m) && m@ == "SOUND"@,
    {
        Bell::Mode(string_from("SOUND"))
    }
}

/// `modifierKeys`.
#[derive(Debug, Clone, Copy, Default, PartialEq, Eq)]
pub struct ModifierKeys {
    pub alt_is_meta: bool,
    pub cmd_is_meta: bool,
}

/// SSH settings of a profile, as the config file spells them.
#[derive(Debug, Clone, Default, PartialEq)]
pub struct SshProfileDef {
    pub host: String,
    pub user: String,
    pub port: Option<u16>,
    pub identity_file: Option<String>,
    pub forward_agent: Option<bool>,
    pub extra_args: Option<Vec<String>>,
    pub auth_type: Option<String>,
    pub password: Option<String>,
}

impl SshProfileDef {
    /// Password auth when `authType` is `"password"`, and also whenever a
    /// non-empty password is stored.
    pub fn uses_password_auth(&self) -> (r: bool)
        ensures
            r == ((self.auth_type matches Some(a) && a@ == "password"@) || (
            self.password matches Some(p) && p@.len() > 0)),
    {
        let by_type = match &self.auth_type {
            Some(a) => str_eq(a.as_str(), "password"),
            None => false,
        };
        by_type || match &self.password {
            Some(p) => p.as_str().unicode_len() > 0,
            None => false,
        }
    }
}

/// One entry of `config.profiles[]`. `config` keeps the raw members so that
/// they can be shallow-merged over the root options.
#[derive(Debug)]
pub struct ProfileDef {
    pub name: String,
    pub profile_type: Option<String>,
    pub ssh: Option<SshProfileDef>,
    pub theme: Option<String>,
    pub color: Option<String>,
    pub config: Vec<(String, Json)>,
}

impl ProfileDef {
    /// An unnamed local profile with no overrides.
    pub fn named(name: &str) -> (r: ProfileDef)
        ensures
            r.name@ == name@,
            r.profile_type is None,
            r.ssh is None,
            r.theme is None,
            r.color is None,
            r.config@.len() == 0,
    {
        ProfileDef {
            name: string_from(name),
            profile_type: None,
            ssh: None,
            theme: None,
            color: None,
            config: Vec::new(),
        }
    }

    pub fn is_ssh(&self) -> (r: bool)
        ensures
            r == (self.profile_type matches Some(t) && t@ == "ssh"@),
    {
        match &self.profile_type {
            Some(t) => str_eq(t.as_str(), "ssh"),
            None => false,
        }
    }
}

/// The name generated for the unnamed profile at `index`.
pub open spec fn generated_name(index: nat) -> Seq<char> {
    "profile-"@ + decimal(index + 1)
}

/// The names profiles end up with: blank names (after trimming) are
/// replaced by `profile-<position>`.
pub open spec fn normalized_name(name: Seq<char>, index: nat) -> Seq<char> {
    if trim(name).len() == 0 {
        generated_name(index)
    } else {
        name
    }
}

/// `after` is `before` with blank names replaced by generated ones, or a
/// single local `default` profile when `before` is empty.
pub open spec fn profiles_normalized(before: Seq<ProfileDef>, after: Seq<ProfileDef>) -> bool {
    &&& before.len() == 0 ==> after.len() == 1 && after[0].name@ == "default"@ && after[0].profile_type is None
        && after[0].ssh is None && after[0].theme is None && after[0].color is None && after[0].config@.len() == 0
    &&& before.len() > 0 ==> after.len() == before.len()
    &&& forall|i: int|
        0 <= i < before.len() ==> (#[trigger] after[i]).name@ == normalized_name(before[i].name@, i as nat)
            && after[i].profile_type == before[i].profile_type && after[i].ssh == before[i].ssh
            && after[i].theme == before[i].theme && after[i].color == before[i].color
            && after[i].config == before[i].config
}

/// There is always at least one profile (a local one called `default`),
/// and every profile has a name.
pub fn normalize_profiles(profiles: &mut Vec<ProfileDef>)
    ensures
        profiles_normalized(old(profiles)@, final(profiles)@),
{
    if profiles.len() == 0 {
        profiles.push(ProfileDef::named("default"));
        return;
    }
    let ghost p0 = profiles@;
    let n = profiles.len();
    let mut i: usize = 0;
    while i < n
        invariant
            0 <= i <= n,
            n == p0.len(),
            profiles@.len() == n,
            forall|j: int|
                i <= j < n ==> #[trigger] profiles@[j] == p0[j],
            forall|j: int|
                0 <= j < i ==> (#[trigger] profiles@[j]).name@ == normalized_name(p0[j].name@, j as nat)
                    && profiles@[j].profile_type == p0[j].profile_type && profiles@[j].ssh == p0[j].ssh
                    && profiles@[j].theme == p0[j].theme && profiles@[j].color == p0[j].color
                    && profiles@[j].config == p0[j].config,
        decreases n - i,
    {
        let nc = chars_of(profiles[i].name.as_str());
        let t = trim_chars(&nc);
        if t.len() == 0 {
            let mut name = chars_of("profile-");
            let next: usize = i + 1;
            let digits = decimal_chars(next as u64);
            let mut k: usize = 0;
            let ghost base = name@;
            while k < digits.len()
                invariant
                    0 <= k <= digits@.len(),
                    name@ == base + digits@.subrange(0, k as int),
                decreases digits@.len() - k,
            {
                name.push(digits[k]);
                k = k + 1;
                assert(name@ =~= base + digits@.subrange(0, k as int));
            }
            assert(digits@.subrange(0, k as int) =~= digits@);
            let mut entry = ProfileDef::named("");
            profiles.set_and_swap(i, &mut entry);
            entry.name = string_of(&name);
            profiles.set(i, entry);
        }
        i = i + 1;
    }
}

/// The profile opened when none is named: the configured default when a
/// profile of that name exists, else the first profile, else `default`.
pub open spec fn default_profile_spec(configured: Option<Seq<char>>, names: Seq<Seq<char>>) -> Seq<char> {
    let wanted = match configured {
        Some(n) => n,
        None => "default"@,
    };
    if names.contains(wanted) {
        wanted
    } else if names.len() > 0 {
        names[0]
    } else {
        "default"@
    }
}

pub open spec fn profile_names(profiles: Seq<ProfileDef>) -> Seq<Seq<char>> {
    profiles.map_values(|p: ProfileDef| p.name@)
}

pub fn default_profile_name(default_profile: Option<&str>, profiles: &[ProfileDef]) -> (r: String)
    ensures
        r@ == default_profile_spec(
            match default_profile {
                Some(n) => Some(n@),
                None => None,
            },
            profile_names(profiles@),
        ),
{
    let wanted = match default_profile {
        Some(n) => string_from(n),
        None => string_from("default"),
    };
    let ghost names = profile_names(profiles@);
    let mut i: usize = 0;
    while i < profiles.len()
        invariant
            0 <= i <= profiles@.len(),
            names == profile_names(profiles@),
            wanted@ == match default_profile {
                Some(n) => n@,
                None => "default"@,
            },
            forall|j: int| 0 <= j < i ==> names[j] != wanted@,
        decreases profiles@.len() - i,
    {
        if str_eq(profiles[i].name.as_str(), wanted.as_str()) {
            assert(names[i as int] == wanted@);
            assert(names.contains(wanted@));
            return wanted;
        }
        i = i + 1;
    }
    assert(!names.contains(wanted@));
    if profiles.len() > 0 {
        crate::text::copy_string(&profiles[0].name)
    } else {
        string_from("default")
    }
}

/// The CSS `padding` shorthand as (top, right, bottom, left) number texts:
/// one to four whitespace-separated values, each without trailing `px`;
/// two give vertical and horizontal, three give top, horizontal and bottom.
/// Any other count is no padding setting at all.
pub open spec fn padding_sides_spec(text: Seq<char>) -> Option<(Seq<char>, Seq<char>, Seq<char>, Seq<char>)> {
    let v = words(text).map_values(|w: Seq<char>| strip_px(w));
    if v.len() == 1 {
        Some((v[0], v[0], v[0], v[0]))
    } else if v.len() == 2 {
        Some((v[0], v[1], v[0], v[1]))
    } else if v.len() == 3 {
        Some((v[0], v[1], v[2], v[1]))
    } else if v.len() == 4 {
        Some((v[0], v[1], v[2], v[3]))
    } else {
        None
    }
}

/// Split the `padding` option into its four sides; the caller reads each
/// side as a number.
pub fn padding_sides(text: &str) -> (r: Option<(String, String, String, String)>)
    ensures
        match r {
            Some((t, rt, b, l)) => padding_sides_spec(text@) == Some((t@, rt@, b@, l@)),
            None => padding_sides_spec(text@) is None,
        },
{
    let chars = chars_of(text);
    let ws = words_of(&chars);
    let mut v: Vec<String> = Vec::new();
    let mut i: usize = 0;
    while i < ws.len()
        invariant
            0 <= i <= ws@.len(),
            v@.len() == i,
            forall|j: int| 0 <= j < i ==> (#[trigger] v@[j])@ == strip_px(ws@[j]@),
        decreases ws@.len() - i,
    {
        let w = strip_px_chars(&ws[i]);
        v.push(string_of(&w));
        i = i + 1;
    }
    let ghost sv = words(text@).map_values(|w: Seq<char>| strip_px(w));
    proof {
        assert(sv.len() == v@.len());
        assert forall|j: int| 0 <= j < v@.len() implies (#[trigger] v@[j])@ == sv[j] by {
            assert(ws@[j]@ == views_of(ws@)[j]);
        }
    }
    if v.len() == 1 {
        Some((copy_string(&v[0]), copy_string(&v[0]), copy_string(&v[0]), copy_string(&v[0])))
    } else if v.len() == 2 {
        Some((copy_string(&v[0]), copy_string(&v[1]), copy_string(&v[0]), copy_string(&v[1])))
    } else if v.len() == 3 {
        Some((copy_string(&v[0]), copy_string(&v[1]), copy_string(&v[2]), copy_string(&v[1])))
    } else if v.len() == 4 {
        Some((copy_string(&v[0]), copy_string(&v[1]), copy_string(&v[2]), copy_string(&v[3])))
    } else {
        None
    }
}

} // verus!
