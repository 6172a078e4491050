//! The resolved keymap: platform defaults merged with the user's section,
//! `<base>:prefix` commands expanded into their nine jump slots, and every
//! binding of every known command parsed into a chord.

use vstd::prelude::*;

use crate::keymap::{
    chord_spec, command_spec, parse_chord, parse_command, ChordSpec, Command, CommandSpec,
    KeyChord, OneOrMany,
};
use crate::config::strs_view;
use crate::platform::Platform;
use crate::text::{
    append_str, chars_of, copy_string, digit_char, digit_of, ends_with, has_suffix, str_eq,
    string_of, sub_chars,
};

verus! {

// ---------------------------------------------------------------------------
// Sections as association lists
// ---------------------------------------------------------------------------

/// The value stored under `k`: the first entry with that name.
pub open spec fn entry_of<V>(v: Seq<(Seq<char>, V)>, k: Seq<char>) -> Option<V>
    decreases v.len(),
{
    if v.len() == 0 {
        None
    } else if v[0].0 == k {
        Some(v[0].1)
    } else {
        entry_of(v.drop_first(), k)
    }
}

/// No name occurs twice.
pub open spec fn names_distinct<V>(v: Seq<(Seq<char>, V)>) -> bool {
    forall|i: int, j: int| 0 <= i < j < v.len() ==> #[trigger] v[i].0 != #[trigger] v[j].0
}

/// A keymap section (command name and its bindings) as characters.
pub open spec fn section_view(v: Seq<(String, OneOrMany)>) -> Seq<(Seq<char>, Seq<Seq<char>>)> {
    v.map_values(|p: (String, OneOrMany)| (p.0@, p.1.bindings()))
}

/// A working list of names and binding strings, as characters.
pub open spec fn entries_view(v: Seq<(String, Vec<String>)>) -> Seq<(Seq<char>, Seq<Seq<char>>)> {
    v.map_values(|p: (String, Vec<String>)| (p.0@, strs_view(p.1@)))
}

pub proof fn lemma_entry_props<V>(v: Seq<(Seq<char>, V)>, k: Seq<char>)
    ensures
        entry_of(v, k) is None <==> forall|i: int| 0 <= i < v.len() ==> #[trigger] v[i].0 != k,
        names_distinct(v) ==> forall|i: int|
            0 <= i < v.len() && #[trigger] v[i].0 == k ==> entry_of(v, k) == Some(v[i].1),
    decreases v.len(),
{
    if v.len() > 0 {
        lemma_entry_props(v.drop_first(), k);
        assert forall|i: int| 0 < i < v.len() implies #[trigger] v[i] == v.drop_first()[i - 1] by {}
        if names_distinct(v) {
            assert(names_distinct(v.drop_first()));
        }
    }
}

/// Looking a name up after appending an entry.
pub proof fn lemma_entry_push<V>(v: Seq<(Seq<char>, V)>, e: (Seq<char>, V), k: Seq<char>)
    ensures
        entry_of(v.push(e), k) == match entry_of(v, k) {
            Some(x) => Some(x),
            None => if e.0 == k {
                Some(e.1)
            } else {
                None
            },
        },
    decreases v.len(),
{
    if v.len() > 0 {
        assert(v.push(e).drop_first() =~= v.drop_first().push(e));
        assert(v.push(e)[0] == v[0]);
        lemma_entry_push(v.drop_first(), e, k);
    } else {
        assert(v.push(e).drop_first() =~= Seq::<(Seq<char>, V)>::empty());
        assert(v.push(e)[0] == e);
        assert(entry_of(v.push(e).drop_first(), k) is None);
    }
}

// ---------------------------------------------------------------------------
// What the resolved keymap holds
// ---------------------------------------------------------------------------

/// The user's bindings for a command replace the default ones.
pub open spec fn merged_spec(
    defaults: Seq<(Seq<char>, Seq<Seq<char>>)>,
    user: Seq<(Seq<char>, Seq<Seq<char>>)>,
    k: Seq<char>,
) -> Option<Seq<Seq<char>>> {
    match entry_of(user, k) {
        Some(b) => Some(b),
        None => entry_of(defaults, k),
    }
}

/// The name suffix of jump slot `n`: `:1` … `:8`, and `:last` for slot 9.
pub open spec fn slot_suffix(n: nat) -> Seq<char> {
    if n == 9 {
        ":last"@
    } else {
        seq![':', digit_char(n)]
    }
}

/// The prefix command and slot a name is an expansion of, read off its
/// suffix.
pub open spec fn expansion_of(k: Seq<char>) -> Option<(Seq<char>, nat)> {
    if k.len() >= 2 && k[k.len() - 2] == ':' && '1' <= k[k.len() - 1] <= '8' {
        Some((k.take(k.len() - 2), (k[k.len() - 1] as u32 - 48) as nat))
    } else if ends_with(k, ":last"@) {
        Some((k.take(k.len() - 5), 9))
    } else {
        None
    }
}

/// Slot `n` of a prefix binding: the binding with `+<n>` appended.
pub open spec fn slot_bindings(bs: Seq<Seq<char>>, n: nat) -> Seq<Seq<char>> {
    bs.map_values(|b: Seq<char>| b + seq!['+', digit_char(n)])
}

/// What the `<base>:prefix` entries of `m` expand `k` into.
pub open spec fn expanded_in(m: Seq<(Seq<char>, Seq<Seq<char>>)>, k: Seq<char>) -> Option<Seq<Seq<char>>> {
    match expansion_of(k) {
        Some((base, n)) => match entry_of(m, base + ":prefix"@) {
            Some(bs) => Some(slot_bindings(bs, n)),
            None => None,
        },
        None => None,
    }
}

/// The bindings of `k` once `:prefix` commands are expanded: a command
/// named outright keeps its own bindings (so an explicit `tab:jump:1`
/// replaces the expanded slot), and `:prefix` commands themselves are not
/// commands.
pub open spec fn resolved_spec(
    defaults: Seq<(Seq<char>, Seq<Seq<char>>)>,
    user: Seq<(Seq<char>, Seq<Seq<char>>)>,
    k: Seq<char>,
) -> Option<Seq<Seq<char>>> {
    if !ends_with(k, ":prefix"@) && merged_spec(defaults, user, k) is Some {
        merged_spec(defaults, user, k)
    } else {
        match expansion_of(k) {
            Some((base, n)) => match merged_spec(defaults, user, base + ":prefix"@) {
                Some(bs) => Some(slot_bindings(bs, n)),
                None => None,
            },
            None => None,
        }
    }
}

/// Code-point order of names, as `String`'s `Ord` compares them.
pub open spec fn name_lt(a: Seq<char>, b: Seq<char>) -> bool
    decreases a.len(),
{
    if a.len() == 0 {
        b.len() > 0
    } else if b.len() == 0 {
        false
    } else if a[0] != b[0] {
        a[0] < b[0]
    } else {
        name_lt(a.drop_first(), b.drop_first())
    }
}

/// Names strictly ascending.
pub open spec fn sorted_by_name<V>(v: Seq<(Seq<char>, V)>) -> bool {
    forall|i: int, j: int| 0 <= i < j < v.len() ==> name_lt(#[trigger] v[i].0, #[trigger] v[j].0)
}

proof fn lemma_name_lt_irrefl(a: Seq<char>)
    ensures
        !name_lt(a, a),
    decreases a.len(),
{
    if a.len() > 0 {
        lemma_name_lt_irrefl(a.drop_first());
    }
}

proof fn lemma_name_lt_trans(a: Seq<char>, b: Seq<char>, c: Seq<char>)
    requires
        name_lt(a, b),
        name_lt(b, c),
    ensures
        name_lt(a, c),
    decreases a.len(),
{
    if a.len() > 0 && b.len() > 0 && c.len() > 0 && a[0] == b[0] && b[0] == c[0] {
        lemma_name_lt_trans(a.drop_first(), b.drop_first(), c.drop_first());
    }
}

proof fn lemma_name_lt_total(a: Seq<char>, b: Seq<char>)
    requires
        a != b,
    ensures
        name_lt(a, b) || name_lt(b, a),
    decreases a.len(),
{
    if a.len() > 0 && b.len() > 0 {
        if a[0] == b[0] {
            if a.drop_first() == b.drop_first() {
                assert(a =~= seq![a[0]] + a.drop_first());
                assert(b =~= seq![b[0]] + b.drop_first());
            }
            lemma_name_lt_total(a.drop_first(), b.drop_first());
        }
    } else if a.len() == 0 && b.len() == 0 {
        assert(a =~= b);
    }
}

/// The slot names of a base read back as that base and slot.
proof fn lemma_expansion_of_slot(base: Seq<char>, n: nat)
    requires
        1 <= n <= 9,
    ensures
        expansion_of(base + slot_suffix(n)) == Some((base, n)),
{
    let k = base + slot_suffix(n);
    if n == 9 {
        reveal_strlit(":last");
        assert(k.len() == base.len() + 5);
        assert(k[k.len() - 1] == 't');
        assert(k.skip(k.len() - 5) =~= ":last"@);
        assert(k.take(k.len() - 5) =~= base);
    } else {
        assert(k[k.len() - 2] == ':');
        assert(k[k.len() - 1] == digit_char(n));
        assert(k.take(k.len() - 2) =~= base);
    }
}

/// A name with a slot reading is that base with that slot's suffix.
proof fn lemma_expansion_of_inverse(k: Seq<char>)
    requires
        expansion_of(k) is Some,
    ensures
        match expansion_of(k) {
            Some((base, n)) => 1 <= n <= 9 && k == base + slot_suffix(n),
            None => false,
        },
{
    let (base, n) = expansion_of(k)->0;
    if k.len() >= 2 && k[k.len() - 2] == ':' && '1' <= k[k.len() - 1] <= '8' {
        assert(digit_char(n) == k[k.len() - 1]);
        assert(k =~= base + slot_suffix(n));
    } else {
        reveal_strlit(":last");
        assert(k =~= base + slot_suffix(n));
    }
}

/// The chords of one command's bindings; a binding that does not parse is
/// skipped.
pub open spec fn chords_out(bs: Seq<Seq<char>>, c: CommandSpec, platform: Platform) -> Seq<(ChordSpec, CommandSpec)>
    decreases bs.len(),
{
    if bs.len() == 0 {
        seq![]
    } else {
        chords_out(bs.drop_last(), c, platform) + match chord_spec(bs.last(), platform) {
            Some(ch) => seq![(ch, c)],
            None => seq![],
        }
    }
}

/// The chords of each entry in turn; an unknown command is skipped.
pub open spec fn keymap_out(r: Seq<(Seq<char>, Seq<Seq<char>>)>, platform: Platform) -> Seq<(ChordSpec, CommandSpec)>
    decreases r.len(),
{
    if r.len() == 0 {
        seq![]
    } else {
        keymap_out(r.drop_last(), platform) + match command_spec(r.last().0) {
            Some(c) => chords_out(r.last().1, c, platform),
            None => seq![],
        }
    }
}

/// A keymap as chord and command contents.
pub open spec fn bindings_view(v: Seq<(KeyChord, Command)>) -> Seq<(ChordSpec, CommandSpec)> {
    v.map_values(|p: (KeyChord, Command)| (p.0@, p.1@))
}

// ---------------------------------------------------------------------------
// Building it
// ---------------------------------------------------------------------------

/// The bindings as owned strings.
fn copy_strings(v: &Vec<String>) -> (r: Vec<String>)
    ensures
        strs_view(r@) == strs_view(v@),
{
    let mut r: Vec<String> = Vec::new();
    let mut i: usize = 0;
    while i < v.len()
        invariant
            0 <= i <= v@.len(),
            r@.len() == i,
            forall|j: int| 0 <= j < i ==> (#[trigger] r@[j])@ == v@[j]@,
        decreases v@.len() - i,
    {
        r.push(copy_string(&v[i]));
        i = i + 1;
    }
    assert(strs_view(r@) =~= strs_view(v@));
    r
}

/// Set name `k` to `x`: replace the entry in place, or append one.
fn upsert(v: &mut Vec<(String, Vec<String>)>, k: String, x: Vec<String>)
    requires
        names_distinct(entries_view(old(v)@)),
    ensures
        names_distinct(entries_view(final(v)@)),
        forall|n: Seq<char>| #[trigger] entry_of(entries_view(final(v)@), n) == if n == k@ {
            Some(strs_view(x@))
        } else {
            entry_of(entries_view(old(v)@), n)
        },
{
    let ghost v0 = entries_view(v@);
    let ghost kv = k@;
    let ghost xv = strs_view(x@);
    let mut i: usize = 0;
    while i < v.len()
        invariant
            0 <= i <= v@.len(),
            v0 == entries_view(v@),
            v0 == entries_view(old(v)@),
            names_distinct(v0),
            kv == k@,
            xv == strs_view(x@),
            forall|j: int| 0 <= j < i ==> (#[trigger] v@[j]).0@ != kv,
        decreases v@.len() - i,
    {
        if str_eq(v[i].0.as_str(), k.as_str()) {
            v.set(i, (k, x));
            proof {
                let v1 = entries_view(v@);
                assert(v1 =~= v0.update(i as int, (kv, xv)));
                assert forall|a: int, b: int| 0 <= a < b < v1.len() implies #[trigger] v1[a].0 != #[trigger] v1[b].0 by {
                    assert(v0[a].0 != v0[b].0);
                }
                assert forall|n: Seq<char>| #[trigger] entry_of(v1, n) == if n == kv {
                    Some(xv)
                } else {
                    entry_of(v0, n)
                } by {
                    lemma_entry_props(v0, n);
                    lemma_entry_props(v1, n);
                    if n == kv {
                        assert(v1[i as int].0 == n);
                    } else if entry_of(v0, n) is Some {
                        let j = choose|j: int| 0 <= j < v0.len() && v0[j].0 == n;
                        assert(v1[j].0 == n);
                    } else {
                        assert forall|j: int| 0 <= j < v1.len() implies #[trigger] v1[j].0 != n by {
                            if j != i {
                                assert(v1[j] == v0[j]);
                            }
                        }
                    }
                }
            }
            return;
        }
        i = i + 1;
    }
    v.push((k, x));
    proof {
        let v1 = entries_view(v@);
        assert(v1 =~= v0.push((kv, xv)));
        assert forall|j: int| 0 <= j < v0.len() implies #[trigger] v0[j].0 != kv by {
            assert(v@[j].0@ == v0[j].0);
        }
        assert forall|n: Seq<char>| #[trigger] entry_of(v1, n) == if n == kv {
            Some(xv)
        } else {
            entry_of(v0, n)
        } by {
            lemma_entry_push(v0, (kv, xv), n);
            lemma_entry_props(v0, n);
        }
    }
}

/// The defaults with the user's entries laid over them.
fn merge_sections(defaults: &Vec<(String, OneOrMany)>, user: &Vec<(String, OneOrMany)>) -> (m: Vec<(String, Vec<String>)>)
    requires
        names_distinct(section_view(defaults@)),
        names_distinct(section_view(user@)),
    ensures
        names_distinct(entries_view(m@)),
        forall|k: Seq<char>| #[trigger] entry_of(entries_view(m@), k) == merged_spec(section_view(defaults@), section_view(user@), k),
{
    let ghost dv = section_view(defaults@);
    let ghost uv = section_view(user@);
    let mut m: Vec<(String, Vec<String>)> = Vec::new();
    let mut i: usize = 0;
    while i < defaults.len()
        invariant
            0 <= i <= defaults@.len(),
            dv == section_view(defaults@),
            names_distinct(dv),
            names_distinct(entries_view(m@)),
            forall|k: Seq<char>| #[trigger] entry_of(entries_view(m@), k) == entry_of(dv.take(i as int), k),
        decreases defaults@.len() - i,
    {
        let name = copy_string(&defaults[i].0);
        let bs = defaults[i].1.iter();
        upsert(&mut m, name, bs);
        proof {
            assert(dv.take(i + 1) =~= dv.take(i as int).push(dv[i as int]));
            assert forall|k: Seq<char>| #[trigger] entry_of(entries_view(m@), k) == entry_of(dv.take(i + 1), k) by {
                lemma_entry_push(dv.take(i as int), dv[i as int], k);
                lemma_entry_props(dv.take(i as int), k);
                if k == dv[i as int].0 {
                    assert forall|j: int| 0 <= j < i implies #[trigger] dv.take(i as int)[j].0 != k by {
                        assert(dv[j].0 != dv[i as int].0);
                    }
                }
            }
        }
        i = i + 1;
    }
    assert(dv.take(i as int) =~= dv);
    let mut j: usize = 0;
    while j < user.len()
        invariant
            0 <= j <= user@.len(),
            uv == section_view(user@),
            names_distinct(uv),
            names_distinct(entries_view(m@)),
            forall|k: Seq<char>| #[trigger] entry_of(entries_view(m@), k) == match entry_of(uv.take(j as int), k) {
                Some(b) => Some(b),
                None => entry_of(dv, k),
            },
        decreases user@.len() - j,
    {
        let name = copy_string(&user[j].0);
        let bs = user[j].1.iter();
        upsert(&mut m, name, bs);
        proof {
            assert(uv.take(j + 1) =~= uv.take(j as int).push(uv[j as int]));
            assert forall|k: Seq<char>| #[trigger] entry_of(entries_view(m@), k) == match entry_of(uv.take(j + 1), k) {
                Some(b) => Some(b),
                None => entry_of(dv, k),
            } by {
                lemma_entry_push(uv.take(j as int), uv[j as int], k);
                lemma_entry_props(uv.take(j as int), k);
                if k == uv[j as int].0 {
                    assert forall|t: int| 0 <= t < j implies #[trigger] uv.take(j as int)[t].0 != k by {
                        assert(uv[t].0 != uv[j as int].0);
                    }
                }
            }
        }
        j = j + 1;
    }
    assert(uv.take(j as int) =~= uv);
    m
}

/// The name and bindings of slot `n` of the prefix command `base`.
fn slot_entry(base: &Vec<char>, bs: &Vec<String>, n: u8) -> (r: (String, Vec<String>))
    requires
        1 <= n <= 9,
    ensures
        r.0@ == base@ + slot_suffix(n as nat),
        strs_view(r.1@) == slot_bindings(strs_view(bs@), n as nat),
{
    let d = digit_of(n as u64);
    let mut name: Vec<char> = Vec::new();
    let mut t: usize = 0;
    while t < base.len()
        invariant
            0 <= t <= base@.len(),
            name@ == base@.take(t as int),
        decreases base@.len() - t,
    {
        name.push(base[t]);
        t = t + 1;
        assert(name@ =~= base@.take(t as int));
    }
    assert(base@.take(t as int) =~= base@);
    if n == 9 {
        append_str(&mut name, ":last");
    } else {
        name.push(':');
        name.push(d);
        assert(name@ =~= base@ + seq![':', digit_char(n as nat)]);
    }
    let mut out: Vec<String> = Vec::new();
    let mut i: usize = 0;
    while i < bs.len()
        invariant
            0 <= i <= bs@.len(),
            1 <= n <= 9,
            d == digit_char(n as nat),
            out@.len() == i,
            forall|j: int| 0 <= j < i ==> (#[trigger] out@[j])@ == bs@[j]@ + seq!['+', digit_char(n as nat)],
        decreases bs@.len() - i,
    {
        let mut c = chars_of(bs[i].as_str());
        c.push('+');
        c.push(d);
        out.push(string_of(&c));
        i = i + 1;
    }
    assert(strs_view(out@) =~= slot_bindings(strs_view(bs@), n as nat));
    (string_of(&name), out)
}

proof fn lemma_prefix_name(base: Seq<char>)
    ensures
        ends_with(base + ":prefix"@, ":prefix"@),
        forall|b: Seq<char>| #[trigger] (b + ":prefix"@) == base + ":prefix"@ ==> b == base,
{
    reveal_strlit(":prefix");
    let p = ":prefix"@;
    assert((base + p).skip((base + p).len() - p.len()) =~= p);
    assert forall|b: Seq<char>| #[trigger] (b + p) == base + p implies b == base by {
        assert(b =~= (b + p).take(b.len() as int));
        assert(base =~= (base + p).take(base.len() as int));
    }
}

/// The prefix entries expanded into their slots, then every other entry
/// laid over them under its own name.
fn resolve_entries(m: &Vec<(String, Vec<String>)>) -> (r: Vec<(String, Vec<String>)>)
    requires
        names_distinct(entries_view(m@)),
    ensures
        names_distinct(entries_view(r@)),
        forall|k: Seq<char>| #[trigger] entry_of(entries_view(r@), k) == if !ends_with(k, ":prefix"@) && entry_of(entries_view(m@), k) is Some {
            entry_of(entries_view(m@), k)
        } else {
            expanded_in(entries_view(m@), k)
        },
{
    let ghost mv = entries_view(m@);
    let suffix = chars_of(":prefix");
    proof {
        reveal_strlit(":prefix");
    }
    let mut r: Vec<(String, Vec<String>)> = Vec::new();
    let mut i: usize = 0;
    while i < m.len()
        invariant
            0 <= i <= m@.len(),
            mv == entries_view(m@),
            names_distinct(mv),
            suffix@ == ":prefix"@,
            names_distinct(entries_view(r@)),
            forall|k: Seq<char>| #[trigger] entry_of(entries_view(r@), k) == expanded_in(mv.take(i as int), k),
        decreases m@.len() - i,
    {
        let name = chars_of(m[i].0.as_str());
        assert(mv.take(i + 1) =~= mv.take(i as int).push(mv[i as int]));
        if has_suffix(&name, &suffix) {
            proof {
                reveal_strlit(":prefix");
                assert(name@.skip(name@.len() - 7) =~= ":prefix"@);
            }
            let base = sub_chars(&name, 0, name.len() - 7);
            proof {
                assert(name@ =~= base@ + ":prefix"@);
                lemma_prefix_name(base@);
            }
            let ghost r0 = entries_view(r@);
            let mut n: u8 = 1;
            while n <= 9
                invariant
                    1 <= n <= 10,
                    i < m@.len(),
                    mv == entries_view(m@),
                    names_distinct(entries_view(r@)),
                    forall|k: Seq<char>| #[trigger] entry_of(entries_view(r@), k) == match expansion_of(k) {
                        Some((b, t)) => if b == base@ && t < n {
                            Some(slot_bindings(mv[i as int].1, t))
                        } else {
                            entry_of(r0, k)
                        },
                        None => entry_of(r0, k),
                    },
                decreases 10 - n,
            {
                let (slot_name, slot_bs) = slot_entry(&base, &m[i].1, n);
                upsert(&mut r, slot_name, slot_bs);
                proof {
                    lemma_expansion_of_slot(base@, n as nat);
                    assert forall|k: Seq<char>| #[trigger] entry_of(entries_view(r@), k) == match expansion_of(k) {
                        Some((b, t)) => if b == base@ && t < n + 1 {
                            Some(slot_bindings(mv[i as int].1, t))
                        } else {
                            entry_of(r0, k)
                        },
                        None => entry_of(r0, k),
                    } by {
                        if expansion_of(k) is Some {
                            lemma_expansion_of_inverse(k);
                        }
                    }
                }
                n = n + 1;
            }
            proof {
                assert forall|k: Seq<char>| #[trigger] entry_of(entries_view(r@), k) == expanded_in(mv.take(i + 1), k) by {
                    if expansion_of(k) is Some {
                        lemma_expansion_of_inverse(k);
                        let (b, t) = expansion_of(k)->0;
                        lemma_entry_push(mv.take(i as int), mv[i as int], b + ":prefix"@);
                        lemma_entry_props(mv.take(i as int), b + ":prefix"@);
                        if b == base@ {
                            assert forall|j: int| 0 <= j < i implies #[trigger] mv.take(i as int)[j].0 != b + ":prefix"@ by {
                                assert(mv[j].0 != mv[i as int].0);
                            }
                        }
                    }
                }
            }
        } else {
            proof {
                assert forall|k: Seq<char>| #[trigger] entry_of(entries_view(r@), k) == expanded_in(mv.take(i + 1), k) by {
                    if expansion_of(k) is Some {
                        let (b, t) = expansion_of(k)->0;
                        lemma_prefix_name(b);
                        lemma_entry_push(mv.take(i as int), mv[i as int], b + ":prefix"@);
                    }
                }
            }
        }
        i = i + 1;
    }
    assert(mv.take(i as int) =~= mv);
    let mut j: usize = 0;
    while j < m.len()
        invariant
            0 <= j <= m@.len(),
            mv == entries_view(m@),
            names_distinct(mv),
            suffix@ == ":prefix"@,
            names_distinct(entries_view(r@)),
            forall|k: Seq<char>| #[trigger] entry_of(entries_view(r@), k) == if !ends_with(k, ":prefix"@) && entry_of(mv.take(j as int), k) is Some {
                entry_of(mv.take(j as int), k)
            } else {
                expanded_in(mv, k)
            },
        decreases m@.len() - j,
    {
        let name = chars_of(m[j].0.as_str());
        assert(mv.take(j + 1) =~= mv.take(j as int).push(mv[j as int]));
        if !has_suffix(&name, &suffix) {
            let bs = copy_strings(&m[j].1);
            upsert(&mut r, copy_string(&m[j].0), bs);
        }
        proof {
            assert forall|k: Seq<char>| #[trigger] entry_of(entries_view(r@), k) == if !ends_with(k, ":prefix"@) && entry_of(mv.take(j + 1), k) is Some {
                entry_of(mv.take(j + 1), k)
            } else {
                expanded_in(mv, k)
            } by {
                lemma_entry_push(mv.take(j as int), mv[j as int], k);
                lemma_entry_props(mv.take(j as int), k);
                if k == mv[j as int].0 {
                    assert forall|t: int| 0 <= t < j implies #[trigger] mv.take(j as int)[t].0 != k by {
                        assert(mv[t].0 != mv[j as int].0);
                    }
                }
            }
        }
        j = j + 1;
    }
    assert(mv.take(j as int) =~= mv);
    r
}

/// `a` before `b` in code-point order.
fn name_less(a: &[char], b: &[char]) -> (r: bool)
    ensures
        r == name_lt(a@, b@),
{
    let mut i: usize = 0;
    assert(a@.skip(0) =~= a@);
    assert(b@.skip(0) =~= b@);
    while i < a.len() && i < b.len()
        invariant
            0 <= i <= a@.len(),
            i <= b@.len(),
            a@.take(i as int) == b@.take(i as int),
            name_lt(a@, b@) == name_lt(a@.skip(i as int), b@.skip(i as int)),
        decreases a@.len() - i,
    {
        if a[i] != b[i] {
            proof {
                assert(a@.skip(i as int)[0] == a@[i as int]);
                assert(b@.skip(i as int)[0] == b@[i as int]);
            }
            return a[i] < b[i];
        }
        proof {
            assert(a@.skip(i as int).drop_first() =~= a@.skip(i + 1));
            assert(b@.skip(i as int).drop_first() =~= b@.skip(i + 1));
            assert(a@.take(i + 1) =~= a@.take(i as int).push(a@[i as int]));
            assert(b@.take(i + 1) =~= b@.take(i as int).push(b@[i as int]));
        }
        i = i + 1;
    }
    i < b.len()
}

/// Inserting an entry whose name is new.
proof fn lemma_entry_insert<V>(v: Seq<(Seq<char>, V)>, p: int, e: (Seq<char>, V), k: Seq<char>)
    requires
        0 <= p <= v.len(),
        entry_of(v, e.0) is None,
    ensures
        entry_of(v.insert(p, e), k) == if k == e.0 {
            Some(e.1)
        } else {
            entry_of(v, k)
        },
    decreases p,
{
    if p == 0 {
        assert(v.insert(p, e)[0] == e);
        assert(v.insert(p, e).drop_first() =~= v);
    } else {
        assert(v.insert(p, e)[0] == v[0]);
        assert(v.insert(p, e).drop_first() =~= v.drop_first().insert(p - 1, e));
        lemma_entry_insert(v.drop_first(), p - 1, e, k);
    }
}

/// The entries in code-point order of their names.
fn sort_by_name(v: &Vec<(String, Vec<String>)>) -> (r: Vec<(String, Vec<String>)>)
    requires
        names_distinct(entries_view(v@)),
    ensures
        sorted_by_name(entries_view(r@)),
        forall|k: Seq<char>| #[trigger] entry_of(entries_view(r@), k) == entry_of(entries_view(v@), k),
{
    let ghost vv = entries_view(v@);
    let mut out: Vec<(String, Vec<String>)> = Vec::new();
    let mut i: usize = 0;
    while i < v.len()
        invariant
            0 <= i <= v@.len(),
            vv == entries_view(v@),
            names_distinct(vv),
            sorted_by_name(entries_view(out@)),
            forall|k: Seq<char>| #[trigger] entry_of(entries_view(out@), k) == entry_of(vv.take(i as int), k),
        decreases v@.len() - i,
    {
        let key = chars_of(v[i].0.as_str());
        let ghost ov = entries_view(out@);
        proof {
            lemma_entry_props(vv.take(i as int), key@);
            assert forall|j: int| 0 <= j < i implies #[trigger] vv.take(i as int)[j].0 != key@ by {
                assert(vv[j].0 != vv[i as int].0);
            }
            lemma_entry_props(ov, key@);
        }
        let mut p: usize = 0;
        while p < out.len() && !name_less(&key, &chars_of(out[p].0.as_str()))
            invariant
                0 <= p <= out@.len(),
                ov == entries_view(out@),
                forall|t: int| 0 <= t < ov.len() ==> #[trigger] ov[t].0 != key@,
                forall|t: int| 0 <= t < p ==> name_lt(#[trigger] ov[t].0, key@),
            decreases out@.len() - p,
        {
            proof {
                lemma_name_lt_total(ov[p as int].0, key@);
            }
            p = p + 1;
        }
        let e = (copy_string(&v[i].0), copy_strings(&v[i].1));
        out.insert(p, e);
        proof {
            let ev = (key@, vv[i as int].1);
            let nv = entries_view(out@);
            assert(nv =~= ov.insert(p as int, ev));
            if p < ov.len() {
                assert(name_lt(key@, ov[p as int].0));
            }
            assert forall|a: int, b: int| 0 <= a < b < nv.len() implies name_lt(#[trigger] nv[a].0, #[trigger] nv[b].0) by {
                if b < p {
                } else if b == p {
                } else if a < p {
                    assert(name_lt(ov[a].0, key@));
                    assert(name_lt(key@, ov[p as int].0));
                    lemma_name_lt_trans(ov[a].0, key@, ov[p as int].0);
                    if b - 1 > p {
                        lemma_name_lt_trans(ov[a].0, ov[p as int].0, ov[b - 1].0);
                    }
                } else if a == p {
                    if b - 1 > p {
                        lemma_name_lt_trans(key@, ov[p as int].0, ov[b - 1].0);
                    }
                } else {
                    assert(nv[a] == ov[a - 1]);
                    assert(nv[b] == ov[b - 1]);
                }
            }
            assert(vv.take(i + 1) =~= vv.take(i as int).push(vv[i as int]));
            assert forall|k: Seq<char>| #[trigger] entry_of(nv, k) == entry_of(vv.take(i + 1), k) by {
                lemma_entry_insert(ov, p as int, ev, k);
                lemma_entry_push(vv.take(i as int), vv[i as int], k);
            }
        }
        i = i + 1;
    }
    assert(vv.take(i as int) =~= vv);
    out
}

/// Every parsed chord of every known command, entry by entry.
fn emit(sorted: &Vec<(String, Vec<String>)>, platform: Platform) -> (out: Vec<(KeyChord, Command)>)
    ensures
        bindings_view(out@) == keymap_out(entries_view(sorted@), platform),
{
    let ghost sv = entries_view(sorted@);
    let mut out: Vec<(KeyChord, Command)> = Vec::new();
    let mut i: usize = 0;
    while i < sorted.len()
        invariant
            0 <= i <= sorted@.len(),
            sv == entries_view(sorted@),
            bindings_view(out@) == keymap_out(sv.take(i as int), platform),
        decreases sorted@.len() - i,
    {
        let name = sorted[i].0.as_str();
        assert(sv.take(i + 1).drop_last() =~= sv.take(i as int));
        assert(sv.take(i + 1).last() == sv[i as int]);
        let ghost before = bindings_view(out@);
        if let Some(first) = parse_command(name) {
            let ghost c = first@;
            let bs = &sorted[i].1;
            let ghost bv = strs_view(bs@);
            let mut j: usize = 0;
            while j < bs.len()
                invariant
                    0 <= j <= bs@.len(),
                    bv == strs_view(bs@),
                    command_spec(name@) == Some(c),
                    bindings_view(out@) == before + chords_out(bv.take(j as int), c, platform),
                decreases bs@.len() - j,
            {
                assert(bv.take(j + 1).drop_last() =~= bv.take(j as int));
                assert(bv.take(j + 1).last() == bs@[j as int]@);
                let ghost out0 = bindings_view(out@);
                let ghost tail = match chord_spec(bs@[j as int]@, platform) {
                    Some(ch) => seq![(ch, c)],
                    None => Seq::<(ChordSpec, CommandSpec)>::empty(),
                };
                assert(chords_out(bv.take(j + 1), c, platform) == chords_out(bv.take(j as int), c, platform) + tail);
                if let Some(chord) = parse_chord(bs[j].as_str(), platform) {
                    if let Some(cmd) = parse_command(name) {
                        out.push((chord, cmd));
                        assert(bindings_view(out@) =~= out0.push((chord@, cmd@)));
                    }
                } else {
                    assert(tail =~= Seq::<(ChordSpec, CommandSpec)>::empty());
                }
                proof {
                    assert(bindings_view(out@) =~= before + chords_out(bv.take(j + 1), c, platform));
                }
                j = j + 1;
            }
            assert(bv.take(j as int) =~= bv);
        }
        i = i + 1;
    }
    assert(sv.take(i as int) =~= sv);
    out
}

/// The resolved keymap as entries in name order: sorted, and holding for
/// every name what `resolved_spec` gives.
pub open spec fn resolved_table(
    r: Seq<(Seq<char>, Seq<Seq<char>>)>,
    defaults: Seq<(Seq<char>, Seq<Seq<char>>)>,
    user: Seq<(Seq<char>, Seq<Seq<char>>)>,
) -> bool {
    &&& sorted_by_name(r)
    &&& forall|k: Seq<char>| #[trigger] entry_of(r, k) == resolved_spec(defaults, user, k)
}

/// Fully resolved keymap: chord → command, the platform defaults merged with
/// the user's section (the user's bindings for a command replace the
/// default ones), `<base>:prefix` commands expanded into `<base>:1` …
/// `<base>:8` and `<base>:last` bound to `<binding>+1` … `<binding>+9`
/// (an explicit slot entry replaces its expansion), then in name order
/// every binding that parses, of every command that is known.
///
/// Both sections come from JSON objects, so no name occurs twice in either.
pub fn build_keymap(defaults: &Vec<(String, OneOrMany)>, user: &Vec<(String, OneOrMany)>, platform: Platform) -> (r: Vec<(KeyChord, Command)>)
    requires
        names_distinct(section_view(defaults@)),
        names_distinct(section_view(user@)),
    ensures
        exists|t: Seq<(Seq<char>, Seq<Seq<char>>)>| #[trigger] resolved_table(t, section_view(defaults@), section_view(user@))
            && bindings_view(r@) == keymap_out(t, platform),
{
    let merged = merge_sections(defaults, user);
    let resolved = resolve_entries(&merged);
    let sorted = sort_by_name(&resolved);
    let out = emit(&sorted, platform);
    proof {
        let dv = section_view(defaults@);
        let uv = section_view(user@);
        let t = entries_view(sorted@);
        assert forall|k: Seq<char>| #[trigger] entry_of(t, k) == resolved_spec(dv, uv, k) by {
            if expansion_of(k) is Some {
                let (b, n) = expansion_of(k)->0;
                assert(entry_of(entries_view(merged@), b + ":prefix"@) == merged_spec(dv, uv, b + ":prefix"@));
            }
        }
        assert(resolved_table(t, dv, uv));
    }
    out
}

} // verus!
