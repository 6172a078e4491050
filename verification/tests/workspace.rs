use hyper_revamp::workspace::{tab_title, PaneNode, SessionId, SessionIds, SplitDir, Workspace};

fn sid(n: u64) -> SessionId {
    SessionId(n)
}

fn active_leaf(ws: &Workspace, tab: usize) -> hyper_revamp::workspace::NodeId {
    ws.tabs()[tab].active_leaf
}

fn root(ws: &Workspace, tab: usize) -> hyper_revamp::workspace::NodeId {
    ws.tabs()[tab].root
}

#[test]
fn same_direction_split_appends_sibling() {
    let mut ws = Workspace::default();
    ws.new_tab(sid(1));
    let leaf1 = active_leaf(&ws, 0);
    ws.split(leaf1, SplitDir::Horizontal, sid(2));
    let leaf2 = active_leaf(&ws, 0);
    let out = ws.split(leaf2, SplitDir::Horizontal, sid(3));
    assert_eq!(out.moved, None);
    assert_eq!(out.index, 2);

    match ws.node(root(&ws, 0)) {
        Some(PaneNode::Split { dir, children }) => {
            assert_eq!(*dir, SplitDir::Horizontal);
            assert_eq!(children.len(), 3);
        }
        _ => panic!("root should be a split"),
    }
    assert_eq!(ws.sessions_of_tab(0), vec![sid(1), sid(2), sid(3)]);
}

#[test]
fn cross_direction_split_promotes() {
    let mut ws = Workspace::default();
    ws.new_tab(sid(1));
    let leaf1 = active_leaf(&ws, 0);
    ws.split(leaf1, SplitDir::Horizontal, sid(2));
    // Split the second pane vertically → it becomes a nested split.
    let leaf2 = active_leaf(&ws, 0);
    let out = ws.split(leaf2, SplitDir::Vertical, sid(3));
    assert_eq!(out.split, leaf2);
    assert!(out.moved.is_some());

    let Some(PaneNode::Split { children, dir }) = ws.node(root(&ws, 0)) else {
        panic!("root split");
    };
    assert_eq!(*dir, SplitDir::Horizontal);
    assert_eq!(children.len(), 2);
    let Some(PaneNode::Split { dir: inner_dir, children: inner }) = ws.node(children[1]) else {
        panic!("nested split expected");
    };
    assert_eq!(*inner_dir, SplitDir::Vertical);
    assert_eq!(inner.len(), 2);
    assert_eq!(ws.sessions_of_tab(0), vec![sid(1), sid(2), sid(3)]);
}

#[test]
fn removal_rebalances_and_merges_single_child_parent() {
    let mut ws = Workspace::default();
    ws.new_tab(sid(1));
    let leaf1 = active_leaf(&ws, 0);
    ws.split(leaf1, SplitDir::Horizontal, sid(2));
    let leaf2 = active_leaf(&ws, 0);
    ws.split(leaf2, SplitDir::Horizontal, sid(3));
    let leaf3 = active_leaf(&ws, 0);

    // Remove middle-ish pane; still 2 children.
    let out = ws.remove(leaf3);
    assert!(!out.tab_closed);
    assert_eq!(out.removed_from, Some((root(&ws, 0), 2)));
    assert_eq!(out.merged, None);
    let r = root(&ws, 0);
    let Some(PaneNode::Split { children, .. }) = ws.node(r) else {
        panic!()
    };
    assert_eq!(children.len(), 2);

    // Remove one more: single child left → parent merges into leaf.
    let survivors = ws.leaves_of(r);
    let out = ws.remove(survivors[1]);
    assert!(!out.tab_closed);
    assert_eq!(out.merged, Some(survivors[0]));
    assert!(matches!(ws.node(root(&ws, 0)), Some(PaneNode::Leaf { .. })));
    assert_eq!(ws.sessions_of_tab(0), vec![sid(1)]);

    // Removing the last leaf closes the tab.
    assert!(ws.remove(root(&ws, 0)).tab_closed);
    assert!(ws.tabs().is_empty());
}

#[test]
fn merge_of_nested_split_reparents_grandchildren() {
    let mut ws = Workspace::default();
    ws.new_tab(sid(1));
    let leaf1 = active_leaf(&ws, 0);
    ws.split(leaf1, SplitDir::Horizontal, sid(2));
    let leaf2 = active_leaf(&ws, 0);
    ws.split(leaf2, SplitDir::Vertical, sid(3));
    // Root: H[1, V[2,3]]. Remove 1 → root should become V[2,3].
    let first_leaf = ws.leaves_of(root(&ws, 0))[0];
    ws.remove(first_leaf);
    let Some(PaneNode::Split { dir, children }) = ws.node(root(&ws, 0)) else {
        panic!("root should still be a split");
    };
    assert_eq!(*dir, SplitDir::Vertical);
    assert_eq!(children.len(), 2);
    assert_eq!(ws.sessions_of_tab(0), vec![sid(2), sid(3)]);
    // Grandchildren must be reparented for future removals to work.
    let leaves = ws.leaves_of(root(&ws, 0));
    ws.remove(leaves[0]);
    assert_eq!(ws.sessions_of_tab(0), vec![sid(3)]);
}

#[test]
fn pane_cycling_wraps() {
    let mut ws = Workspace::default();
    ws.new_tab(sid(1));
    let leaf1 = active_leaf(&ws, 0);
    ws.split(leaf1, SplitDir::Horizontal, sid(2));
    assert_eq!(ws.active_session(), Some(sid(2)));
    ws.cycle_pane(true);
    assert_eq!(ws.active_session(), Some(sid(1)));
    ws.cycle_pane(false);
    assert_eq!(ws.active_session(), Some(sid(2)));
}

/// Three tabs of one session each, focus on the middle one.
fn three_tabs() -> Workspace {
    let mut ws = Workspace::default();
    for n in 1..=3 {
        ws.new_tab(sid(n));
    }
    ws.set_active_tab(1);
    ws
}

#[test]
fn closing_an_earlier_tab_keeps_focus() {
    let mut ws = three_tabs();
    let r = root(&ws, 0);
    assert!(ws.remove(r).tab_closed);
    assert_eq!(ws.tabs().len(), 2);
    assert_eq!(
        ws.active_session(),
        Some(sid(2)),
        "focus should stay on the same tab, not slide to the next"
    );
}

#[test]
fn closing_a_later_tab_keeps_focus() {
    let mut ws = three_tabs();
    let r = root(&ws, 2);
    assert!(ws.remove(r).tab_closed);
    assert_eq!(ws.active_session(), Some(sid(2)));
}

#[test]
fn closing_the_active_tab_focuses_the_previous() {
    let mut ws = three_tabs();
    let r = root(&ws, 1);
    assert!(ws.remove(r).tab_closed);
    assert_eq!(ws.active_session(), Some(sid(1)));
}

#[test]
fn closing_the_first_active_tab_focuses_the_new_first() {
    let mut ws = three_tabs();
    ws.set_active_tab(0);
    let r = root(&ws, 0);
    assert!(ws.remove(r).tab_closed);
    assert_eq!(ws.active_session(), Some(sid(2)));
}

#[test]
fn closing_the_focused_pane_focuses_the_previous_sibling() {
    let mut ws = Workspace::default();
    ws.new_tab(sid(1));
    let leaf1 = active_leaf(&ws, 0);
    ws.split(leaf1, SplitDir::Horizontal, sid(2));
    let leaf2 = active_leaf(&ws, 0);
    ws.split(leaf2, SplitDir::Horizontal, sid(3));
    // A|B|C with C focused.
    assert_eq!(ws.active_session(), Some(sid(3)));
    let leaf3 = active_leaf(&ws, 0);
    ws.remove(leaf3);
    assert_eq!(ws.active_session(), Some(sid(2)), "previous sibling, not A");
}

#[test]
fn closing_the_first_focused_pane_focuses_the_next() {
    let mut ws = Workspace::default();
    ws.new_tab(sid(1));
    let leaf1 = active_leaf(&ws, 0);
    ws.split(leaf1, SplitDir::Horizontal, sid(2));
    ws.split(active_leaf(&ws, 0), SplitDir::Horizontal, sid(3));
    let first = ws.leaves_of(root(&ws, 0))[0];
    ws.focus_leaf(first);
    ws.remove(first);
    assert_eq!(ws.active_session(), Some(sid(2)));
}

#[test]
fn closing_an_unfocused_pane_keeps_focus() {
    let mut ws = Workspace::default();
    ws.new_tab(sid(1));
    let leaf1 = active_leaf(&ws, 0);
    ws.split(leaf1, SplitDir::Horizontal, sid(2));
    ws.split(active_leaf(&ws, 0), SplitDir::Horizontal, sid(3));
    // Focus B, close A.
    let leaves = ws.leaves_of(root(&ws, 0));
    ws.focus_leaf(leaves[1]);
    ws.remove(leaves[0]);
    assert_eq!(ws.active_session(), Some(sid(2)));
}

#[test]
fn focus_survives_a_single_child_merge() {
    let mut ws = Workspace::default();
    ws.new_tab(sid(1));
    let leaf1 = active_leaf(&ws, 0);
    ws.split(leaf1, SplitDir::Horizontal, sid(2));
    let leaf2 = active_leaf(&ws, 0);
    ws.split(leaf2, SplitDir::Vertical, sid(3));
    // Root: H[1, V[2,3]] with 3 focused. Removing 1 merges V into root.
    let first = ws.leaves_of(root(&ws, 0))[0];
    ws.remove(first);
    assert_eq!(ws.sessions_of_tab(0), vec![sid(2), sid(3)]);
    assert_eq!(
        ws.active_session(),
        Some(sid(3)),
        "the focused pane is untouched by an unrelated merge"
    );
}

#[test]
fn tab_of_and_find_leaf() {
    let mut ws = Workspace::default();
    ws.new_tab(sid(1));
    ws.new_tab(sid(2));
    ws.split(active_leaf(&ws, 1), SplitDir::Vertical, sid(3));
    let leaf3 = ws.find_leaf(sid(3)).unwrap();
    assert_eq!(ws.tab_of(leaf3), Some(1));
    let leaf1 = ws.find_leaf(sid(1)).unwrap();
    assert_eq!(ws.tab_of(leaf1), Some(0));
    assert_eq!(ws.find_leaf(sid(9)), None);
    assert_eq!(ws.sessions_of_tab(5), Vec::<SessionId>::new());
    assert_eq!(ws.active_tab(), 1);
}

#[test]
fn session_ids_count_up() {
    let mut counter = 1u64;
    assert_eq!(SessionId::next(&mut counter), SessionId(1));
    assert_eq!(SessionId::next(&mut counter), SessionId(2));
    let mut last = u64::MAX;
    assert_eq!(SessionId::next(&mut last), SessionId(u64::MAX));
    assert_eq!(last, 0);
}

#[test]
fn tab_stepping_wraps_both_ways() {
    let mut ws = three_tabs();
    ws.step_tab(true);
    assert_eq!(ws.active_tab(), 2);
    ws.step_tab(true);
    assert_eq!(ws.active_tab(), 0);
    ws.step_tab(false);
    assert_eq!(ws.active_tab(), 2);
    ws.step_tab(false);
    assert_eq!(ws.active_tab(), 1);
}

#[test]
fn stepping_forward_then_back_returns_to_the_same_tab() {
    let mut ws = three_tabs();
    for start in 0..3 {
        ws.set_active_tab(start);
        ws.step_tab(true);
        ws.step_tab(false);
        assert_eq!(ws.active_tab(), start);
        ws.step_tab(false);
        ws.step_tab(true);
        assert_eq!(ws.active_tab(), start);
    }
}

#[test]
fn stepping_with_no_tabs_does_nothing() {
    let mut ws = Workspace::default();
    ws.step_tab(true);
    ws.step_tab(false);
    assert_eq!(ws.active_tab(), 0);
    assert!(ws.tabs().is_empty());
}

#[test]
fn jumping_to_numbered_tabs() {
    let mut ws = three_tabs();
    ws.jump_tab(1);
    assert_eq!(ws.active_tab(), 0);
    ws.jump_tab(3);
    assert_eq!(ws.active_tab(), 2);
    ws.jump_tab(7);
    assert_eq!(ws.active_tab(), 2, "a number past the last tab changes nothing");
    ws.jump_tab(0);
    assert_eq!(ws.active_tab(), 0);
    ws.set_active_tab(1);
    ws.jump_last_tab();
    assert_eq!(ws.active_tab(), 2);
    let mut empty = Workspace::default();
    empty.jump_last_tab();
    empty.jump_tab(2);
    assert_eq!(empty.active_tab(), 0);
}

#[test]
fn closing_a_tab_closes_every_pane_in_it() {
    let mut ws = three_tabs();
    // Tab 1: a horizontal split whose second pane is split vertically.
    ws.split(active_leaf(&ws, 1), SplitDir::Horizontal, sid(4));
    ws.split(active_leaf(&ws, 1), SplitDir::Vertical, sid(5));
    let root1 = root(&ws, 1);
    let mut closed = ws.close_tab(1);
    closed.sort_by_key(|s| s.0);
    assert_eq!(closed, vec![sid(2), sid(4), sid(5)]);
    assert_eq!(ws.tabs().len(), 2);
    assert!(ws.tabs().iter().all(|t| t.root != root1));
    assert!(ws.node(root1).is_none());
    assert_eq!(ws.find_leaf(sid(4)), None);
    assert_eq!(ws.find_leaf(sid(5)), None);
    // The active tab closed: the one before it takes over.
    assert_eq!(ws.active_tab(), 0);
    assert_eq!(ws.active_session(), Some(sid(1)));
    assert_eq!(ws.sessions_of_tab(1), vec![sid(3)]);
}

#[test]
fn closing_a_tab_past_the_end_changes_nothing() {
    let mut ws = three_tabs();
    assert!(ws.close_tab(3).is_empty());
    assert_eq!(ws.tabs().len(), 3);
    assert_eq!(ws.active_tab(), 1);
}

#[test]
fn closing_another_tab_keeps_the_active_one() {
    let mut ws = three_tabs();
    assert_eq!(ws.close_tab(2), vec![sid(3)]);
    assert_eq!(ws.active_tab(), 1);
    assert_eq!(ws.active_session(), Some(sid(2)));
}

#[test]
fn tabs_show_their_focused_session_and_its_title() {
    let mut ws = three_tabs();
    ws.split(active_leaf(&ws, 2), SplitDir::Horizontal, sid(7));
    assert_eq!(ws.tab_session(0), Some(sid(1)));
    assert_eq!(ws.tab_session(2), Some(sid(7)));
    assert_eq!(ws.tab_session(3), None);
    assert_eq!(tab_title(Some("vim")), "vim");
    assert_eq!(tab_title(Some("")), "Shell");
    assert_eq!(tab_title(None), "Shell");
}

#[test]
fn session_ids_start_at_one_and_never_repeat() {
    let mut ids = SessionIds::new();
    let a = ids.next_id();
    let b = ids.next_id();
    let c = ids.next_id();
    assert_eq!(a, SessionId(1));
    assert!(a.0 < b.0 && b.0 < c.0);
    assert_eq!(c, SessionId(3));
}

#[test]
fn closing_a_pane_drops_just_its_session_in_order() {
    let mut ws = Workspace::default();
    ws.new_tab(sid(1));
    ws.split(active_leaf(&ws, 0), SplitDir::Horizontal, sid(2));
    ws.split(active_leaf(&ws, 0), SplitDir::Horizontal, sid(3));
    ws.split(active_leaf(&ws, 0), SplitDir::Vertical, sid(4));
    assert_eq!(ws.sessions_of_tab(0), vec![sid(1), sid(2), sid(3), sid(4)]);
    let two = ws.find_leaf(sid(2)).unwrap();
    ws.remove(two);
    assert_eq!(ws.sessions_of_tab(0), vec![sid(1), sid(3), sid(4)]);
    // Now a merge: 3 and 4 share a split; closing 4 merges 3 into it.
    let four = ws.find_leaf(sid(4)).unwrap();
    ws.remove(four);
    assert_eq!(ws.sessions_of_tab(0), vec![sid(1), sid(3)]);
}
