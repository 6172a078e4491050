//! What survives a restart: the tabs open at the last clean exit, in the
//! `{windows: [{tabs: [{profile, cwd?}]}]}` shape the file has always had.

use vstd::prelude::*;

use crate::text::{copy_string, str_eq};

verus! {

/// One restored tab: the profile it ran and the directory it was in.
#[derive(Debug, Clone, PartialEq)]
pub struct StoredTab {
    pub profile: String,
    pub cwd: Option<String>,
}

#[derive(Debug, Clone, PartialEq)]
pub struct StoredWindow {
    pub tabs: Vec<StoredTab>,
}

#[derive(Debug, Clone, PartialEq)]
pub struct StoredSessionState {
    pub windows: Vec<StoredWindow>,
}

impl Default for StoredSessionState {
    /// No windows: the state written once the stored tabs are restored.
    fn default() -> (r: StoredSessionState)
        ensures
            r.windows@.len() == 0,
    {
        StoredSessionState { windows: Vec::new() }
    }
}

/// A tab as profile and directory characters.
pub open spec fn tab_view(t: StoredTab) -> (Seq<char>, Option<Seq<char>>) {
    (
        t.profile@,
        match t.cwd {
            Some(c) => Some(c@),
            None => None,
        },
    )
}

pub open spec fn tabs_view(v: Seq<StoredTab>) -> Seq<(Seq<char>, Option<Seq<char>>)> {
    v.map_values(|t: StoredTab| tab_view(t))
}

/// Every stored tab, window after window.
pub open spec fn all_tabs(windows: Seq<StoredWindow>) -> Seq<(Seq<char>, Option<Seq<char>>)>
    decreases windows.len(),
{
    if windows.len() == 0 {
        seq![]
    } else {
        all_tabs(windows.drop_last()) + tabs_view(windows.last().tabs@)
    }
}

/// The tabs whose profile is among `profiles`, in order.
pub open spec fn known_tabs(
    tabs: Seq<(Seq<char>, Option<Seq<char>>)>,
    profiles: Seq<Seq<char>>,
) -> Seq<(Seq<char>, Option<Seq<char>>)> {
    tabs.filter(|t: (Seq<char>, Option<Seq<char>>)| profiles.contains(t.0))
}

fn copy_tab(t: &StoredTab) -> (r: StoredTab)
    ensures
        tab_view(r) == tab_view(*t),
{
    StoredTab {
        profile: copy_string(&t.profile),
        cwd: match &t.cwd {
            Some(c) => Some(copy_string(c)),
            None => None,
        },
    }
}

/// The state to write at exit: one window holding a tab per open pane
/// (profile and working directory), or no window at all when nothing is
/// open.
pub fn capture_session(panes: &Vec<StoredTab>) -> (r: StoredSessionState)
    ensures
        panes@.len() == 0 ==> r.windows@.len() == 0,
        panes@.len() > 0 ==> r.windows@.len() == 1 && tabs_view(r.windows@[0].tabs@) == tabs_view(panes@),
{
    let mut state = StoredSessionState::default();
    let mut tabs: Vec<StoredTab> = Vec::new();
    let mut i: usize = 0;
    while i < panes.len()
        invariant
            0 <= i <= panes@.len(),
            tabs_view(tabs@) == tabs_view(panes@.take(i as int)),
        decreases panes@.len() - i,
    {
        let t = copy_tab(&panes[i]);
        let ghost prev = tabs@;
        let ghost tv = tab_view(t);
        tabs.push(t);
        assert(tabs@ =~= prev.push(t));
        assert(tabs_view(tabs@) =~= tabs_view(prev).push(tv));
        assert(panes@.take(i + 1) =~= panes@.take(i as int).push(panes@[i as int]));
        assert(tabs_view(panes@.take(i + 1)) =~= tabs_view(panes@.take(i as int)).push(tab_view(panes@[i as int])));
        i = i + 1;
    }
    assert(panes@.take(i as int) =~= panes@);
    if tabs.len() > 0 {
        state.windows.push(StoredWindow { tabs });
    }
    state
}

fn has_name(names: &Vec<String>, n: &String) -> (r: bool)
    ensures
        r == names@.map_values(|s: String| s@).contains(n@),
{
    let ghost nv = names@.map_values(|s: String| s@);
    let mut i: usize = 0;
    while i < names.len()
        invariant
            0 <= i <= names@.len(),
            nv == names@.map_values(|s: String| s@),
            forall|j: int| 0 <= j < i ==> nv[j] != n@,
        decreases names@.len() - i,
    {
        if str_eq(names[i].as_str(), n.as_str()) {
            assert(nv[i as int] == n@);
            return true;
        }
        i = i + 1;
    }
    false
}

/// The tabs to reopen at start-up: every stored tab, window after window,
/// except those whose profile no longer exists (rather than spawning a
/// default shell under a stale name).
pub fn tabs_to_restore(state: &StoredSessionState, profiles: &Vec<String>) -> (r: Vec<StoredTab>)
    ensures
        tabs_view(r@) == known_tabs(all_tabs(state.windows@), profiles@.map_values(|s: String| s@)),
{
    let ghost pv = profiles@.map_values(|s: String| s@);
    let mut out: Vec<StoredTab> = Vec::new();
    let mut w: usize = 0;
    while w < state.windows.len()
        invariant
            0 <= w <= state.windows@.len(),
            pv == profiles@.map_values(|s: String| s@),
            tabs_view(out@) == known_tabs(all_tabs(state.windows@.take(w as int)), pv),
        decreases state.windows@.len() - w,
    {
        let tabs = &state.windows[w].tabs;
        let ghost before = tabs_view(out@);
        let mut i: usize = 0;
        while i < tabs.len()
            invariant
                0 <= i <= tabs@.len(),
                pv == profiles@.map_values(|s: String| s@),
                tabs_view(out@) == before + known_tabs(tabs_view(tabs@.take(i as int)), pv),
            decreases tabs@.len() - i,
        {
            proof {
                let pre = tabs_view(tabs@.take(i as int));
                assert(tabs_view(tabs@.take(i + 1)) =~= pre.push(tab_view(tabs@[i as int])));
                pre.lemma_filter_push(tab_view(tabs@[i as int]), |t: (Seq<char>, Option<Seq<char>>)| pv.contains(t.0));
            }
            if has_name(profiles, &tabs[i].profile) {
                let t = copy_tab(&tabs[i]);
                let ghost prev = out@;
                out.push(t);
                assert(out@ =~= prev.push(t));
                assert(tabs_view(out@) =~= tabs_view(prev).push(tab_view(t)));
                assert(tabs_view(out@) =~= before + known_tabs(tabs_view(tabs@.take(i + 1)), pv));
            }
            i = i + 1;
        }
        proof {
            assert(tabs@.take(i as int) =~= tabs@);
            let ws = state.windows@.take(w + 1);
            assert(ws.drop_last() =~= state.windows@.take(w as int));
            Seq::filter_distributes_over_add(
                all_tabs(state.windows@.take(w as int)),
                tabs_view(tabs@),
                |t: (Seq<char>, Option<Seq<char>>)| pv.contains(t.0),
            );
        }
        w = w + 1;
    }
    assert(state.windows@.take(w as int) =~= state.windows@);
    out
}

/// Reopening what was captured at exit gives back every pane whose profile
/// still exists, in the order the panes were open.
pub proof fn law_restore_after_capture(
    panes: Seq<(Seq<char>, Option<Seq<char>>)>,
    state: StoredSessionState,
    profiles: Seq<Seq<char>>,
)
    requires
        panes.len() == 0 ==> state.windows@.len() == 0,
        panes.len() > 0 ==> state.windows@.len() == 1 && tabs_view(state.windows@[0].tabs@) == panes,
    ensures
        known_tabs(all_tabs(state.windows@), profiles) == known_tabs(panes, profiles),
{
    if panes.len() == 0 {
        assert(panes =~= Seq::<(Seq<char>, Option<Seq<char>>)>::empty());
        assert(known_tabs(panes, profiles) =~= Seq::<(Seq<char>, Option<Seq<char>>)>::empty());
        assert(all_tabs(state.windows@) =~= Seq::<(Seq<char>, Option<Seq<char>>)>::empty());
    } else {
        assert(state.windows@.drop_last().len() == 0);
        assert(all_tabs(state.windows@.drop_last()) =~= Seq::<(Seq<char>, Option<Seq<char>>)>::empty());
        assert(all_tabs(state.windows@) =~= panes);
    }
}

} // verus!
