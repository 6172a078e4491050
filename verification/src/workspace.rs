//! Tabs and split panes. A tab is a tree of panes: splitting in the
//! parent's direction appends a sibling, splitting across promotes the
//! pane into a new split; removal merges a split left with one child into
//! its parent. The pane sizes along each split are fractions kept by the
//! caller: the outcomes of [`Workspace::split`] and [`Workspace::remove`]
//! say where a child was inserted or removed.

use vstd::prelude::*;

use slotmap::{DefaultKey, KeyData, SecondaryMap, SlotMap};

verus! {

/// Unique identifier for a terminal session, stable for its lifetime.
#[derive(Debug, Clone, Copy, PartialEq, Eq, Structural, Hash, PartialOrd, Ord)]
pub struct SessionId(pub u64);

impl SessionId {
    /// The next id from a counter, which advances (wrapping) by one.
    pub fn next(counter: &mut u64) -> (r: SessionId)
        ensures
            r.0 == *old(counter),
            *final(counter) == if *old(counter) == u64::MAX {
                0
            } else {
                (*old(counter) + 1) as u64
            },
    {
        let id = *counter;
        *counter = counter.wrapping_add(1);
        SessionId(id)
    }
}

/// The process's source of session ids: it hands out 1, 2, 3, … in turn,
/// and remembers (as ghost state) which ids it has handed out.
pub struct SessionIds {
    next: u64,
    issued: Ghost<Set<u64>>,
}

impl SessionIds {
    /// The id the next call hands out.
    pub closed spec fn upcoming(&self) -> u64 {
        self.next
    }

    /// The ids handed out so far.
    pub closed spec fn issued(&self) -> Set<u64> {
        self.issued@
    }

    /// Every id handed out is at least 1 and below the upcoming one.
    pub open spec fn wf(&self) -> bool {
        forall|x: u64| #[trigger] self.issued().contains(x) ==> 1 <= x < self.upcoming()
    }

    /// A fresh source: the first id is 1.
    pub fn new() -> (r: SessionIds)
        ensures
            r.wf(),
            r.upcoming() == 1,
            r.issued() == Set::<u64>::empty(),
    {
        SessionIds { next: 1, issued: Ghost(Set::empty()) }
    }

    /// Hand out the next id; the counter wraps after `u64::MAX` ids.
    pub fn next_id(&mut self) -> (r: SessionId)
        ensures
            r.0 == old(self).upcoming(),
            final(self).upcoming() == if old(self).upcoming() == u64::MAX {
                0
            } else {
                (old(self).upcoming() + 1) as u64
            },
            final(self).issued() == old(self).issued().insert(r.0),
            old(self).wf() && old(self).upcoming() >= 1 && old(self).upcoming() < u64::MAX ==> {
                &&& final(self).wf()
                &&& r.0 >= 1
                &&& !old(self).issued().contains(r.0)
            },
    {
        let ghost old_issued = self.issued@;
        let ghost old_next = self.next;
        let id = SessionId::next(&mut self.next);
        self.issued = Ghost(self.issued@.insert(id.0));
        proof {
            if (forall|x: u64| #[trigger] old_issued.contains(x) ==> 1 <= x < old_next) && 1 <= old_next
                < u64::MAX {
                assert forall|x: u64| #[trigger] self.issued@.contains(x) implies 1 <= x < self.next by {
                    if x != id.0 {
                        assert(old_issued.contains(x));
                    }
                }
                assert(!old_issued.contains(id.0));
            }
        }
        id
    }
}

/// Ids handed out one after another by a source that started at 1 are
/// distinct, increasing and at least 1 (until the counter wraps).
pub proof fn law_session_ids_fresh(g: SessionIds, a: u64, b: u64)
    requires
        g.wf(),
        1 <= g.upcoming(),
        g.issued().contains(a),
        b == g.upcoming(),
    ensures
        1 <= a < b,
        a != b,
{
}

/// A pane: a key of the workspace's node arena.
#[derive(Debug, Clone, Copy, PartialEq, Eq, Structural, Hash)]
pub struct NodeId(pub u64);

#[derive(Debug, Clone, Copy, PartialEq, Eq, Structural)]
pub enum SplitDir {
    /// Children side by side.
    Horizontal,
    /// Children stacked.
    Vertical,
}

#[derive(Debug)]
pub enum PaneNode {
    Leaf { session: SessionId },
    Split { dir: SplitDir, children: Vec<NodeId> },
}

#[derive(Debug, Clone, Copy, PartialEq, Eq, Structural)]
pub struct Tab {
    pub root: NodeId,
    pub active_leaf: NodeId,
}

// ---------------------------------------------------------------------------
// The node arena and the parent map
// ---------------------------------------------------------------------------

/// The arena of pane nodes: a `slotmap::SlotMap`, which Verus sees only
/// through [`node_map`] and the wrappers below.
#[verifier::external_body]
pub struct NodeArena {
    slots: SlotMap<DefaultKey, PaneNode>,
}

/// Each non-root pane's parent split: a `slotmap::SecondaryMap` keyed by the
/// arena's keys, seen only through [`parent_map`].
#[verifier::external_body]
pub struct ParentMap {
    slots: SecondaryMap<DefaultKey, NodeId>,
}

/// The nodes a slot map holds, by the 64-bit form of their keys
/// (`KeyData::as_ffi`).
pub uninterp spec fn node_map(m: NodeArena) -> Map<u64, PaneNode>;

/// The entries a secondary map holds, by the 64-bit form of their keys.
pub uninterp spec fn parent_map(m: ParentMap) -> Map<u64, u64>;

/// The slot index of a key's 64-bit form.
pub open spec fn key_slot(k: u64) -> u64 {
    k % 0x1_0000_0000
}

/// The version of a key's 64-bit form.
pub open spec fn key_version(k: u64) -> u64 {
    k / 0x1_0000_0000
}

/// The 64-bit form of the key `KeyData::from_ffi(k)` makes: the version is
/// forced odd.
pub open spec fn key_canon(k: u64) -> u64 {
    if key_version(k) % 2 == 1 {
        k
    } else {
        (k + 0x1_0000_0000) as u64
    }
}

/// `SlotMap::new`: an empty arena.
#[verifier::external_body]
fn arena_new() -> (r: NodeArena)
    ensures
        node_map(r).dom().is_empty(),
{
    NodeArena { slots: SlotMap::new() }
}

/// `SlotMap::insert`: the value goes into a vacant slot (or a new one) under
/// a key with an odd version; no live key shares that slot. It panics only
/// when `u32::MAX` slots are in use, which the bound on the size rules out.
#[verifier::external_body]
fn arena_insert(m: &mut NodeArena, node: PaneNode) -> (k: NodeId)
    requires
        node_map(*old(m)).dom().finite(),
        node_map(*old(m)).dom().len() < 0xffff_fff0,
    ensures
        !node_map(*old(m)).dom().contains(k.0),
        key_canon(k.0) == k.0,
        key_slot(k.0) < 0xffff_ffff,
        forall|x: u64| #[trigger] node_map(*old(m)).dom().contains(x) ==> key_slot(x) != key_slot(k.0),
        node_map(*final(m)) == node_map(*old(m)).insert(k.0, node),
{
    NodeId(slotmap::Key::data(&m.slots.insert(node)).as_ffi())
}

/// `SlotMap::get` with the key `KeyData::from_ffi(k)`.
#[verifier::external_body]
fn arena_get<'a>(m: &'a NodeArena, k: NodeId) -> (r: Option<&'a PaneNode>)
    ensures
        match r {
            Some(n) => node_map(*m).dom().contains(key_canon(k.0)) && *n == node_map(*m)[key_canon(k.0)],
            None => !node_map(*m).dom().contains(key_canon(k.0)),
        },
{
    m.slots.get(DefaultKey::from(KeyData::from_ffi(k.0)))
}

/// `SlotMap::remove` with the key `KeyData::from_ffi(k)`.
#[verifier::external_body]
fn arena_remove(m: &mut NodeArena, k: NodeId) -> (r: Option<PaneNode>)
    ensures
        r == node_map(*old(m)).get(key_canon(k.0)),
        node_map(*final(m)) == node_map(*old(m)).remove(key_canon(k.0)),
{
    m.slots.remove(DefaultKey::from(KeyData::from_ffi(k.0)))
}

/// Overwrite the node at a live key (`IndexMut`, which panics on a missing
/// key).
#[verifier::external_body]
fn arena_set(m: &mut NodeArena, k: NodeId, node: PaneNode)
    requires
        node_map(*old(m)).dom().contains(key_canon(k.0)),
    ensures
        node_map(*final(m)) == node_map(*old(m)).insert(key_canon(k.0), node),
{
    m.slots[DefaultKey::from(KeyData::from_ffi(k.0))] = node;
}

/// `SlotMap::len`: the number of live nodes.
#[verifier::external_body]
fn arena_len(m: &NodeArena) -> (r: usize)
    requires
        node_map(*m).dom().finite(),
    ensures
        r == node_map(*m).dom().len(),
{
    m.slots.len()
}

/// `SlotMap::keys`, each live key once, in the arena's own order.
#[verifier::external_body]
fn arena_keys(m: &NodeArena) -> (r: Vec<NodeId>)
    ensures
        forall|i: int| 0 <= i < r@.len() ==> node_map(*m).dom().contains(#[trigger] r@[i].0),
        forall|x: u64| #[trigger] node_map(*m).dom().contains(x) ==> exists|i: int| 0 <= i < r@.len() && r@[i].0 == x,
{
    m.slots.keys().map(|k| NodeId(slotmap::Key::data(&k).as_ffi())).collect()
}

/// `SecondaryMap::new`: an empty map.
#[verifier::external_body]
fn parents_new() -> (r: ParentMap)
    ensures
        parent_map(r).dom().is_empty(),
{
    ParentMap { slots: SecondaryMap::new() }
}

/// `SecondaryMap::insert` under a key that is not null and whose slot holds
/// no other key: the entry is stored (or replaced).
#[verifier::external_body]
fn parents_insert(m: &mut ParentMap, k: NodeId, v: NodeId)
    requires
        key_canon(k.0) == k.0,
        key_slot(k.0) < 0xffff_ffff,
        forall|x: u64| #[trigger] parent_map(*old(m)).dom().contains(x) && x != k.0 ==> key_slot(x) != key_slot(k.0),
    ensures
        parent_map(*final(m)) == parent_map(*old(m)).insert(k.0, v.0),
{
    m.slots.insert(DefaultKey::from(KeyData::from_ffi(k.0)), v);
}

/// `SecondaryMap::get` with the key `KeyData::from_ffi(k)`.
#[verifier::external_body]
fn parents_get(m: &ParentMap, k: NodeId) -> (r: Option<NodeId>)
    ensures
        match r {
            Some(v) => parent_map(*m).dom().contains(key_canon(k.0)) && v.0 == parent_map(*m)[key_canon(k.0)],
            None => !parent_map(*m).dom().contains(key_canon(k.0)),
        },
{
    m.slots.get(DefaultKey::from(KeyData::from_ffi(k.0))).copied()
}

/// `SecondaryMap::remove` with the key `KeyData::from_ffi(k)`.
#[verifier::external_body]
fn parents_remove(m: &mut ParentMap, k: NodeId)
    ensures
        parent_map(*final(m)) == parent_map(*old(m)).remove(key_canon(k.0)),
{
    m.slots.remove(DefaultKey::from(KeyData::from_ffi(k.0)));
}

// ---------------------------------------------------------------------------
// The workspace and its invariant
// ---------------------------------------------------------------------------

/// All tabs of a window and their pane trees.
pub struct Workspace {
    nodes: NodeArena,
    parent: ParentMap,
    tabs: Vec<Tab>,
    active_tab: usize,
    /// A rank per node that strictly decreases from a split to its
    /// children: the trees have no cycles.
    rank: Ghost<Map<u64, nat>>,
    /// Every rank is below this.
    bound: Ghost<nat>,
}

/// A key that the arena can have handed out: its version is odd.
pub open spec fn valid_id(id: NodeId) -> bool {
    key_canon(id.0) == id.0
}

pub open spec fn children_of(n: PaneNode) -> Seq<NodeId> {
    match n {
        PaneNode::Split { children, .. } => children@,
        PaneNode::Leaf { .. } => Seq::empty(),
    }
}

/// The root above `k`, following parents while the rank grows.
pub open spec fn top(p: Map<u64, u64>, r: Map<u64, nat>, b: nat, k: u64) -> u64
    decreases b - r[k],
{
    if p.contains_key(k) && r[k] < r[p[k]] && r[p[k]] < b {
        top(p, r, b, p[k])
    } else {
        k
    }
}

/// Live keys are valid, sit in distinct slots, and are ranked below `b`.
#[verifier::opaque]
pub open spec fn nodes_ok(n: Map<u64, PaneNode>, r: Map<u64, nat>, b: nat) -> bool {
    &&& n.dom().finite()
    &&& forall|k: u64|
        #[trigger] n.dom().contains(k) ==> key_canon(k) == k && key_slot(k) < 0xffff_ffff
            && r.contains_key(k) && r[k] < b
    &&& forall|k1: u64, k2: u64|
        #[trigger] n.dom().contains(k1) && #[trigger] n.dom().contains(k2) && k1 != k2 ==> key_slot(k1)
            != key_slot(k2)
}

/// Every parent link points from a live node to a live split that lists it.
#[verifier::opaque]
pub open spec fn parents_ok(n: Map<u64, PaneNode>, p: Map<u64, u64>) -> bool {
    forall|k: u64|
        #[trigger] p.dom().contains(k) ==> n.dom().contains(k) && n.dom().contains(p[k])
            && n[p[k]] is Split && children_of(n[p[k]]).contains(NodeId(k))
}

/// Splits have at least two distinct children, each live, linked back to
/// the split and ranked below it.
#[verifier::opaque]
pub open spec fn children_ok(n: Map<u64, PaneNode>, p: Map<u64, u64>, r: Map<u64, nat>) -> bool {
    &&& forall|k: u64|
        #[trigger] n.dom().contains(k) && n[k] is Split ==> children_of(n[k]).len() >= 2
            && children_of(n[k]).no_duplicates()
    &&& forall|k: u64, i: int|
        #![trigger n[k], children_of(n[k])[i]]
        n.dom().contains(k) && n[k] is Split && 0 <= i < children_of(n[k]).len() ==> {
            let c = children_of(n[k])[i].0;
            &&& n.dom().contains(c)
            &&& p.dom().contains(c)
            &&& p[c] == k
            &&& r[c] < r[k]
        }
}

/// The parentless live nodes are exactly the tab roots.
#[verifier::opaque]
pub open spec fn roots_ok(n: Map<u64, PaneNode>, p: Map<u64, u64>, t: Seq<Tab>) -> bool {
    forall|k: u64|
        #[trigger] n.dom().contains(k) && !p.dom().contains(k) ==> exists|i: int|
            0 <= i < t.len() && (#[trigger] t[i]).root.0 == k
}

/// Tab roots are distinct parentless live nodes; each tab's focused pane is
/// a leaf whose root is the tab's.
#[verifier::opaque]
pub open spec fn tabs_ok(n: Map<u64, PaneNode>, p: Map<u64, u64>, r: Map<u64, nat>, b: nat, t: Seq<Tab>) -> bool {
    &&& forall|i: int|
        0 <= i < t.len() ==> {
            let tab = #[trigger] t[i];
            &&& n.dom().contains(tab.root.0)
            &&& !p.dom().contains(tab.root.0)
            &&& n.dom().contains(tab.active_leaf.0)
            &&& n[tab.active_leaf.0] is Leaf
            &&& top(p, r, b, tab.active_leaf.0) == tab.root.0
        }
    &&& forall|i: int, j: int|
        0 <= i < t.len() && 0 <= j < t.len() && i != j ==> (#[trigger] t[i]).root != (
        #[trigger] t[j]).root
}

/// The invariant, over the workspace's parts.
pub open spec fn wf_parts(
    n: Map<u64, PaneNode>,
    p: Map<u64, u64>,
    r: Map<u64, nat>,
    b: nat,
    t: Seq<Tab>,
    a: nat,
) -> bool {
    &&& nodes_ok(n, r, b)
    &&& parents_ok(n, p)
    &&& children_ok(n, p, r)
    &&& roots_ok(n, p, t)
    &&& tabs_ok(n, p, r, b, t)
    &&& (t.len() == 0 && a == 0) || a < t.len()
}

/// The tab after `a` of `n` tabs (wrapping), or the one before it.
pub open spec fn stepped_tab(a: nat, n: nat, forward: bool) -> nat {
    if n == 0 {
        a
    } else if forward {
        ((a as int + 1) % (n as int)) as nat
    } else {
        ((a as int + n as int - 1) % (n as int)) as nat
    }
}

/// Stepping to the next tab and back lands on the tab you started from,
/// and so does stepping back and forward.
pub proof fn law_tab_step_round_trip(a: nat, n: nat)
    requires
        a < n,
    ensures
        stepped_tab(stepped_tab(a, n, true), n, false) == a,
        stepped_tab(stepped_tab(a, n, false), n, true) == a,
{
    let ni = n as int;
    let f = stepped_tab(a, n, true);
    let b = stepped_tab(a, n, false);
    assert(f == (a as int + 1) % ni);
    assert(b == (a as int + ni - 1) % ni);
    vstd::arithmetic::div_mod::lemma_mod_bound((a + 1) as int, ni);
    vstd::arithmetic::div_mod::lemma_mod_bound((a + ni - 1) as int, ni);
    if a + 1 == ni {
        vstd::arithmetic::div_mod::lemma_mod_self_0(ni);
        assert(f == 0);
        vstd::arithmetic::div_mod::lemma_small_mod((ni - 1) as nat, n);
    } else {
        vstd::arithmetic::div_mod::lemma_small_mod((a + 1) as nat, n);
        assert(f == a + 1);
        vstd::arithmetic::div_mod::lemma_mod_add_multiples_vanish(a as int, ni);
        vstd::arithmetic::div_mod::lemma_small_mod(a, n);
        assert(f + ni - 1 == a + ni);
    }
    if a == 0 {
        vstd::arithmetic::div_mod::lemma_small_mod((ni - 1) as nat, n);
        assert(b == ni - 1);
        vstd::arithmetic::div_mod::lemma_mod_self_0(ni);
    } else {
        vstd::arithmetic::div_mod::lemma_mod_add_multiples_vanish((a - 1) as int, ni);
        vstd::arithmetic::div_mod::lemma_small_mod((a - 1) as nat, n);
        assert(b == a - 1);
        vstd::arithmetic::div_mod::lemma_small_mod(a, n);
    }
}

impl Workspace {
    pub closed spec fn node_view(&self) -> Map<u64, PaneNode> {
        node_map(self.nodes)
    }

    pub closed spec fn parent_view(&self) -> Map<u64, u64> {
        parent_map(self.parent)
    }

    pub closed spec fn tab_view(&self) -> Seq<Tab> {
        self.tabs@
    }

    pub closed spec fn active_tab_view(&self) -> nat {
        self.active_tab as nat
    }

    pub closed spec fn rank_view(&self) -> Map<u64, nat> {
        self.rank@
    }

    pub closed spec fn bound_view(&self) -> nat {
        self.bound@
    }

    /// The trees are well formed, whatever the tabs.
    pub open spec fn tree_ok(&self) -> bool {
        &&& nodes_ok(self.node_view(), self.rank_view(), self.bound_view())
        &&& parents_ok(self.node_view(), self.parent_view())
        &&& children_ok(self.node_view(), self.parent_view(), self.rank_view())
    }

    /// The root of the tree that holds node `k`.
    pub open spec fn top_of(&self, k: u64) -> u64 {
        top(self.parent_view(), self.rank_view(), self.bound_view(), k)
    }

    /// Well-formedness: parent links and child lists agree, ranks decrease
    /// from a split to its children, splits have at least two distinct
    /// children, the parentless nodes are exactly the tab roots, each tab's
    /// focused pane is a leaf of that tab, and the active tab exists (or is
    /// 0 when there are no tabs).
    pub open spec fn wf(&self) -> bool {
        wf_parts(
            self.node_view(),
            self.parent_view(),
            self.rank_view(),
            self.bound_view(),
            self.tab_view(),
            self.active_tab_view(),
        )
    }

    pub fn tabs(&self) -> (r: &Vec<Tab>)
        ensures
            r@ == self.tab_view(),
    {
        &self.tabs
    }

    pub fn active_tab(&self) -> (r: usize)
        ensures
            r == self.active_tab_view(),
    {
        self.active_tab
    }

    /// The node stored under `id`.
    pub fn node(&self, id: NodeId) -> (r: Option<&PaneNode>)
        ensures
            match r {
                Some(n) => self.node_view().dom().contains(key_canon(id.0)) && *n == self.node_view()[key_canon(id.0)],
                None => !self.node_view().dom().contains(key_canon(id.0)),
            },
    {
        arena_get(&self.nodes, id)
    }
}

/// The leaves under node `k`, left to right (the visual order).
pub open spec fn leaves_in(n: Map<u64, PaneNode>, r: Map<u64, nat>, k: u64) -> Seq<NodeId>
    decreases r[k], 1nat, 0nat,
{
    match n[k] {
        PaneNode::Leaf { .. } => seq![NodeId(k)],
        PaneNode::Split { children, .. } => leaves_list(n, r, children@, r[k]),
    }
}

/// The leaves under each of `cs` in turn (children ranked below `rk`).
pub open spec fn leaves_list(n: Map<u64, PaneNode>, r: Map<u64, nat>, cs: Seq<NodeId>, rk: nat) -> Seq<NodeId>
    decreases rk, 0nat, cs.len(),
{
    if cs.len() == 0 {
        Seq::empty()
    } else {
        leaves_list(n, r, cs.drop_last(), rk) + if r[cs.last().0] < rk {
            leaves_in(n, r, cs.last().0)
        } else {
            Seq::empty()
        }
    }
}

/// The sessions of the leaf nodes among `ids`, in order.
pub open spec fn sessions_of(n: Map<u64, PaneNode>, ids: Seq<NodeId>) -> Seq<SessionId>
    decreases ids.len(),
{
    if ids.len() == 0 {
        Seq::empty()
    } else {
        sessions_of(n, ids.drop_last()) + match n[ids.last().0] {
            PaneNode::Leaf { session } => seq![session],
            _ => Seq::empty(),
        }
    }
}

/// The first tab whose root is `root`.
pub open spec fn tab_with_root(t: Seq<Tab>, root: u64, i: int) -> bool {
    0 <= i < t.len() && t[i].root.0 == root && forall|j: int| 0 <= j < i ==> (#[trigger] t[j]).root.0 != root
}

impl Workspace {
    /// A parent ranks above its child.
    proof fn lemma_parent_rank(&self, x: u64)
        requires
            self.tree_ok(),
            self.parent_view().dom().contains(x),
        ensures
            self.node_view().dom().contains(x),
            self.node_view().dom().contains(self.parent_view()[x]),
            self.rank_view()[x] < self.rank_view()[self.parent_view()[x]],
            self.rank_view()[self.parent_view()[x]] < self.bound_view(),
    {
        reveal(parents_ok);
        reveal(children_ok);
        reveal(nodes_ok);
        let n = self.node_view();
        let p = self.parent_view();
        let k = p[x];
        let cs = children_of(n[k]);
        assert(cs.contains(NodeId(x)));
        let i = choose|i: int| 0 <= i < cs.len() && cs[i] == NodeId(x);
        assert(n[k] is Split);
        assert(children_of(n[k])[i].0 == x);
    }

    /// A child of a split is live, linked back to it, and ranked below it.
    proof fn lemma_child(&self, k: u64, i: int)
        requires
            self.tree_ok(),
            self.node_view().dom().contains(k),
            self.node_view()[k] is Split,
            0 <= i < children_of(self.node_view()[k]).len(),
        ensures
            ({
                let c = children_of(self.node_view()[k])[i].0;
                &&& self.node_view().dom().contains(c)
                &&& self.parent_view().dom().contains(c)
                &&& self.parent_view()[c] == k
                &&& self.rank_view()[c] < self.rank_view()[k]
                &&& self.rank_view()[k] < self.bound_view()
                &&& key_canon(c) == c
            }),
    {
        reveal(children_ok);
        reveal(nodes_ok);
        let c = children_of(self.node_view()[k])[i].0;
        assert(self.node_view().dom().contains(c));
    }

    /// The leaves under a node are leaf nodes of the same tree.
    proof fn lemma_leaves_in(&self, k: u64)
        requires
            self.tree_ok(),
            self.node_view().dom().contains(k),
        ensures
            forall|j: int|
                0 <= j < leaves_in(self.node_view(), self.rank_view(), k).len() ==> {
                    let x = (#[trigger] leaves_in(self.node_view(), self.rank_view(), k)[j]).0;
                    &&& self.node_view().dom().contains(x)
                    &&& self.node_view()[x] is Leaf
                    &&& self.top_of(x) == self.top_of(k)
                },
        decreases self.rank_view()[k], 1nat, 0nat,
    {
        let n = self.node_view();
        match n[k] {
            PaneNode::Leaf { .. } => {},
            PaneNode::Split { children, .. } => {
                self.lemma_leaves_list(k, children@, children@.len() as int);
                assert(children@.subrange(0, children@.len() as int) =~= children@);
            },
        }
    }

    proof fn lemma_leaves_list(&self, k: u64, cs: Seq<NodeId>, m: int)
        requires
            self.tree_ok(),
            self.node_view().dom().contains(k),
            self.node_view()[k] is Split,
            cs == children_of(self.node_view()[k]),
            0 <= m <= cs.len(),
        ensures
            forall|j: int|
                0 <= j < leaves_list(self.node_view(), self.rank_view(), cs.subrange(0, m), self.rank_view()[k]).len() ==> {
                    let x = (#[trigger] leaves_list(
                        self.node_view(),
                        self.rank_view(),
                        cs.subrange(0, m),
                        self.rank_view()[k],
                    )[j]).0;
                    &&& self.node_view().dom().contains(x)
                    &&& self.node_view()[x] is Leaf
                    &&& self.top_of(x) == self.top_of(k)
                },
        decreases self.rank_view()[k], 0nat, m,
    {
        let n = self.node_view();
        let r = self.rank_view();
        if m > 0 {
            let pre = cs.subrange(0, m - 1);
            let cur = cs.subrange(0, m);
            assert(cur.drop_last() =~= pre);
            self.lemma_leaves_list(k, cs, m - 1);
            let c = cs[m - 1].0;
            self.lemma_child(k, m - 1);
            self.lemma_leaves_in(c);
            assert(self.top_of(c) == self.top_of(k));
        } else {
            assert(cs.subrange(0, 0) =~= Seq::<NodeId>::empty());
        }
    }

    /// The leaf nodes under `node`, left to right.
    pub fn leaves_of(&self, node: NodeId) -> (r: Vec<NodeId>)
        requires
            self.tree_ok(),
            valid_id(node),
            self.node_view().dom().contains(node.0),
        ensures
            r@ == leaves_in(self.node_view(), self.rank_view(), node.0),
    {
        let mut out: Vec<NodeId> = Vec::new();
        self.collect_leaves(node, &mut out);
        assert(out@ =~= leaves_in(self.node_view(), self.rank_view(), node.0));
        out
    }

    fn collect_leaves(&self, node: NodeId, out: &mut Vec<NodeId>)
        requires
            self.tree_ok(),
            valid_id(node),
            self.node_view().dom().contains(node.0),
        ensures
            final(out)@ == old(out)@ + leaves_in(self.node_view(), self.rank_view(), node.0),
        decreases self.rank_view()[node.0],
    {
        let ghost n = self.node_view();
        let ghost r = self.rank_view();
        match arena_get(&self.nodes, node) {
            Some(PaneNode::Leaf { .. }) => {
                out.push(node);
            },
            Some(PaneNode::Split { children, .. }) => {
                let ghost out0 = out@;
                let mut i: usize = 0;
                assert(children@.subrange(0, 0) =~= Seq::<NodeId>::empty());
                while i < children.len()
                    invariant
                        self.tree_ok(),
                        n == self.node_view(),
                        r == self.rank_view(),
                        n.dom().contains(node.0),
                        n[node.0] == (PaneNode::Split { dir: n[node.0]->dir, children: *children }),
                        0 <= i <= children@.len(),
                        out@ == out0 + leaves_list(n, r, children@.subrange(0, i as int), r[node.0]),
                    decreases children@.len() - i,
                {
                    let c = children[i];
                    proof {
                        self.lemma_child(node.0, i as int);
                    }
                    let ghost before = out@;
                    self.collect_leaves(c, out);
                    let ghost cur = children@.subrange(0, i + 1);
                    assert(cur.drop_last() =~= children@.subrange(0, i as int));
                    assert(cur.last() == c);
                    i = i + 1;
                    assert(out@ =~= out0 + leaves_list(n, r, children@.subrange(0, i as int), r[node.0]));
                }
                assert(children@.subrange(0, i as int) =~= children@);
            },
            None => {},
        }
    }
}

/// `top` only looks at the parent links and ranks of the nodes it walks
/// through: where those agree, and every rank stays below both bounds, the
/// root is the same.
pub proof fn lemma_top_frame(
    p: Map<u64, u64>,
    r: Map<u64, nat>,
    b: nat,
    p2: Map<u64, u64>,
    r2: Map<u64, nat>,
    b2: nat,
    d: Set<u64>,
    k: u64,
)
    requires
        d.contains(k),
        forall|x: u64| #[trigger] d.contains(x) ==> r[x] < b && r2[x] == r[x] && p2.contains_key(x) == p.contains_key(x),
        forall|x: u64| #[trigger] p.contains_key(x) && d.contains(x) ==> d.contains(p[x]) && p2[x] == p[x],
        b <= b2,
    ensures
        top(p2, r2, b2, k) == top(p, r, b, k),
    decreases b - r[k],
{
    if p.contains_key(k) && r[k] < r[p[k]] {
        lemma_top_frame(p, r, b, p2, r2, b2, d, p[k]);
    }
}

impl Workspace {
    /// The session in the focused pane of the active tab.
    pub fn active_session(&self) -> (r: Option<SessionId>)
        requires
            self.wf(),
        ensures
            r == if self.active_tab_view() < self.tab_view().len() {
                match self.node_view()[self.tab_view()[self.active_tab_view() as int].active_leaf.0] {
                    PaneNode::Leaf { session } => Some(session),
                    _ => None,
                }
            } else {
                None
            },
    {
        if self.active_tab >= self.tabs.len() {
            return None;
        }
        let tab = self.tabs[self.active_tab];
        proof {
            reveal(tabs_ok);
            reveal(nodes_ok);
            assert(self.tab_view()[self.active_tab as int] == tab);
        }
        match arena_get(&self.nodes, tab.active_leaf) {
            Some(PaneNode::Leaf { session }) => Some(*session),
            _ => None,
        }
    }

    /// The session in the focused pane of tab `idx`: what its tab shows.
    pub fn tab_session(&self, idx: usize) -> (r: Option<SessionId>)
        requires
            self.wf(),
        ensures
            r == if idx < self.tab_view().len() {
                match self.node_view()[self.tab_view()[idx as int].active_leaf.0] {
                    PaneNode::Leaf { session } => Some(session),
                    _ => None,
                }
            } else {
                None
            },
    {
        if idx >= self.tabs.len() {
            return None;
        }
        let tab = self.tabs[idx];
        proof {
            reveal(tabs_ok);
            reveal(nodes_ok);
            assert(self.tab_view()[idx as int] == tab);
        }
        match arena_get(&self.nodes, tab.active_leaf) {
            Some(PaneNode::Leaf { session }) => Some(*session),
            _ => None,
        }
    }

    /// A leaf node showing `session`.
    pub fn find_leaf(&self, session: SessionId) -> (r: Option<NodeId>)
        requires
            self.wf(),
        ensures
            match r {
                Some(id) => self.node_view().dom().contains(id.0) && self.node_view()[id.0] == (PaneNode::Leaf { session }),
                None => forall|k: u64| #[trigger] self.node_view().dom().contains(k) ==> self.node_view()[k] != (PaneNode::Leaf { session }),
            },
    {
        let keys = arena_keys(&self.nodes);
        let mut i: usize = 0;
        proof {
            reveal(nodes_ok);
        }
        while i < keys.len()
            invariant
                0 <= i <= keys@.len(),
                forall|k: u64| #[trigger] self.node_view().dom().contains(k) ==> key_canon(k) == k,
                forall|j: int| 0 <= j < keys@.len() ==> self.node_view().dom().contains(#[trigger] keys@[j].0),
                forall|x: u64| #[trigger] self.node_view().dom().contains(x) ==> exists|j: int| 0 <= j < keys@.len() && keys@[j].0 == x,
                forall|j: int| 0 <= j < i ==> self.node_view()[(#[trigger] keys@[j]).0] != (PaneNode::Leaf { session }),
            decreases keys@.len() - i,
        {
            let id = keys[i];
            match arena_get(&self.nodes, id) {
                Some(PaneNode::Leaf { session: s }) => {
                    if *s == session {
                        return Some(id);
                    }
                },
                _ => {},
            }
            i = i + 1;
        }
        proof {
            assert forall|k: u64| #[trigger] self.node_view().dom().contains(k) implies self.node_view()[k] != (PaneNode::Leaf { session }) by {
                let j = choose|j: int| 0 <= j < keys@.len() && keys@[j].0 == k;
                assert(self.node_view()[keys@[j].0] != (PaneNode::Leaf { session }));
            }
        }
        None
    }
}

/// Position of the first `x` in `s`, or -1.
pub open spec fn first_pos(s: Seq<NodeId>, x: NodeId) -> int
    decreases s.len(),
{
    if s.len() == 0 {
        -1
    } else {
        let p = first_pos(s.drop_last(), x);
        if p >= 0 {
            p
        } else if s.last() == x {
            s.len() - 1
        } else {
            -1
        }
    }
}

pub proof fn lemma_first_pos(s: Seq<NodeId>, x: NodeId)
    ensures
        -1 <= first_pos(s, x) < s.len(),
        first_pos(s, x) >= 0 ==> s[first_pos(s, x)] == x,
        forall|i: int| 0 <= i < s.len() && (first_pos(s, x) < 0 || i < first_pos(s, x)) ==> #[trigger] s[i] != x,
    decreases s.len(),
{
    if s.len() > 0 {
        lemma_first_pos(s.drop_last(), x);
        assert forall|i: int| 0 <= i < s.len() && (first_pos(s, x) < 0 || i < first_pos(s, x)) implies #[trigger] s[i] != x by {
            if i < s.len() - 1 {
                assert(s.drop_last()[i] == s[i]);
            }
        }
    }
}

/// The pane that focus moves to from `active` among `leaves`: the next one
/// (or the previous one), wrapping around; a pane not in the list counts
/// as the first.
pub open spec fn cycle_target(leaves: Seq<NodeId>, active: NodeId, forward: bool) -> NodeId {
    let n = leaves.len() as int;
    let pos = if first_pos(leaves, active) >= 0 {
        first_pos(leaves, active)
    } else {
        0
    };
    let next = if forward {
        (pos + 1) % n
    } else {
        (pos + n - 1) % n
    };
    leaves[next]
}

impl Workspace {
    /// The index of the tab that holds `node`.
    pub fn tab_of(&self, node: NodeId) -> (r: Option<usize>)
        requires
            self.tree_ok(),
            valid_id(node),
        ensures
            match r {
                Some(i) => tab_with_root(self.tab_view(), self.top_of(node.0), i as int),
                None => forall|i: int| 0 <= i < self.tab_view().len() ==> (#[trigger] self.tab_view()[i]).root.0 != self.top_of(node.0),
            },
    {
        let mut current = node;
        loop
            invariant
                self.tree_ok(),
                valid_id(current),
                self.top_of(current.0) == self.top_of(node.0),
            ensures
                valid_id(current),
                self.top_of(current.0) == self.top_of(node.0),
                !self.parent_view().dom().contains(current.0),
            decreases self.bound_view() - self.rank_view()[current.0],
        {
            match parents_get(&self.parent, current) {
                Some(up) => {
                    proof {
                        self.lemma_parent_rank(current.0);
                        reveal(nodes_ok);
                    }
                    current = up;
                },
                None => {
                    break;
                },
            }
        }
        assert(self.top_of(current.0) == current.0);
        let mut i: usize = 0;
        while i < self.tabs.len()
            invariant
                0 <= i <= self.tab_view().len(),
                self.tab_view() == self.tabs@,
                current.0 == self.top_of(node.0),
                forall|j: int| 0 <= j < i ==> (#[trigger] self.tab_view()[j]).root.0 != current.0,
            decreases self.tab_view().len() - i,
        {
            if self.tabs[i].root.0 == current.0 {
                return Some(i);
            }
            i = i + 1;
        }
        None
    }

    /// The sessions of a tab's panes, left to right; none for a missing tab.
    pub fn sessions_of_tab(&self, tab_idx: usize) -> (r: Vec<SessionId>)
        requires
            self.wf(),
        ensures
            r@ == if tab_idx < self.tab_view().len() {
                sessions_of(
                    self.node_view(),
                    leaves_in(self.node_view(), self.rank_view(), self.tab_view()[tab_idx as int].root.0),
                )
            } else {
                Seq::empty()
            },
    {
        if tab_idx >= self.tabs.len() {
            return Vec::new();
        }
        let root = self.tabs[tab_idx].root;
        proof {
            reveal(tabs_ok);
            reveal(nodes_ok);
            assert(self.tab_view()[tab_idx as int].root == root);
        }
        let leaves = self.leaves_of(root);
        proof {
            self.lemma_leaves_in(root.0);
        }
        let mut out: Vec<SessionId> = Vec::new();
        let mut i: usize = 0;
        assert(leaves@.subrange(0, 0) =~= Seq::<NodeId>::empty());
        while i < leaves.len()
            invariant
                self.wf(),
                0 <= i <= leaves@.len(),
                forall|j: int| 0 <= j < leaves@.len() ==> self.node_view().dom().contains(#[trigger] leaves@[j].0),
                out@ == sessions_of(self.node_view(), leaves@.subrange(0, i as int)),
            decreases leaves@.len() - i,
        {
            let ghost cur = leaves@.subrange(0, i + 1);
            assert(cur.drop_last() =~= leaves@.subrange(0, i as int));
            assert(cur.last() == leaves@[i as int]);
            proof {
                reveal(nodes_ok);
            }
            match arena_get(&self.nodes, leaves[i]) {
                Some(PaneNode::Leaf { session }) => {
                    out.push(*session);
                },
                _ => {},
            }
            i = i + 1;
        }
        assert(leaves@.subrange(0, i as int) =~= leaves@);
        out
    }
}

impl Workspace {
    /// Open a new tab holding one pane for `session`, focus it, and return
    /// its index.
    pub fn new_tab(&mut self, session: SessionId) -> (r: usize)
        requires
            old(self).wf(),
            old(self).node_view().dom().len() < 0xffff_fff0,
            old(self).tab_view().len() < usize::MAX,
        ensures
            final(self).wf(),
            r == old(self).tab_view().len(),
            final(self).active_tab_view() == r,
            final(self).parent_view() == old(self).parent_view(),
            exists|k: u64|
                {
                    &&& !(#[trigger] old(self).node_view().dom().contains(k))
                    &&& final(self).node_view() == old(self).node_view().insert(k, PaneNode::Leaf { session })
                    &&& final(self).tab_view() == old(self).tab_view().push(Tab { root: NodeId(k), active_leaf: NodeId(k) })
                },
    {
        let ghost n0 = self.node_view();
        let ghost p0 = self.parent_view();
        let ghost r0 = self.rank_view();
        let ghost b0 = self.bound_view();
        let ghost t0 = self.tab_view();
        proof {
            reveal(nodes_ok);
        }
        let leaf = arena_insert(&mut self.nodes, PaneNode::Leaf { session });
        self.tabs.push(Tab { root: leaf, active_leaf: leaf });
        self.active_tab = self.tabs.len() - 1;
        proof {
            self.rank@ = r0.insert(leaf.0, 0);
            self.bound@ = b0 + 1;
        }
        proof {
            let n = self.node_view();
            let p = self.parent_view();
            let r = self.rank_view();
            let b = self.bound_view();
            let t = self.tab_view();
            assert(p == p0);
            assert(nodes_ok(n, r, b)) by {
                reveal(nodes_ok);
                assert(n.dom() =~= n0.dom().insert(leaf.0));
            }
            assert(parents_ok(n, p)) by {
                reveal(parents_ok);
            }
            assert(children_ok(n, p, r)) by {
                reveal(children_ok);
                reveal(parents_ok);
                assert forall|k: u64, i: int|
                    #![trigger n[k], children_of(n[k])[i]]
                    n.dom().contains(k) && n[k] is Split && 0 <= i < children_of(n[k]).len() implies {
                        let c = children_of(n[k])[i].0;
                        &&& n.dom().contains(c)
                        &&& p.dom().contains(c)
                        &&& p[c] == k
                        &&& r[c] < r[k]
                    } by {
                    assert(k != leaf.0);
                    assert(n0[k] == n[k]);
                    assert(children_of(n0[k])[i] == children_of(n[k])[i]);
                }
            }
            assert(roots_ok(n, p, t)) by {
                reveal(roots_ok);
                assert forall|k: u64| #[trigger] n.dom().contains(k) && !p.dom().contains(k) implies exists|i: int|
                    0 <= i < t.len() && (#[trigger] t[i]).root.0 == k by {
                    if k == leaf.0 {
                        assert(t[t.len() - 1].root.0 == k);
                    } else {
                        let i = choose|i: int| 0 <= i < t0.len() && (#[trigger] t0[i]).root.0 == k;
                        assert(t[i] == t0[i]);
                    }
                }
            }
            assert(tabs_ok(n, p, r, b, t)) by {
                reveal(tabs_ok);
                reveal(parents_ok);
                assert forall|i: int| 0 <= i < t.len() implies {
                    let tab = #[trigger] t[i];
                    &&& n.dom().contains(tab.root.0)
                    &&& !p.dom().contains(tab.root.0)
                    &&& n.dom().contains(tab.active_leaf.0)
                    &&& n[tab.active_leaf.0] is Leaf
                    &&& top(p, r, b, tab.active_leaf.0) == tab.root.0
                } by {
                    if i < t0.len() {
                        assert(t[i] == t0[i]);
                        let a = t0[i].active_leaf.0;
                        assert(a != leaf.0);
                        lemma_top_frame(p0, r0, b0, p, r, b, n0.dom(), a);
                    } else {
                        assert(!p.dom().contains(leaf.0));
                    }
                }
                assert forall|i: int, j: int|
                    0 <= i < t.len() && 0 <= j < t.len() && i != j implies (#[trigger] t[i]).root != (
                    #[trigger] t[j]).root by {
                    if i < t0.len() && j < t0.len() {
                        assert(t[i] == t0[i] && t[j] == t0[j]);
                    } else if i < t0.len() {
                        assert(t[i] == t0[i]);
                        assert(n0.dom().contains(t0[i].root.0));
                    } else {
                        assert(t[j] == t0[j]);
                        assert(n0.dom().contains(t0[j].root.0));
                    }
                }
            }
        }
        self.active_tab
    }
}

impl Workspace {
    /// Refocus tab `ti` on `leaf`, a leaf of that tab: the invariant holds.
    proof fn lemma_refocus(old_ws: &Workspace, new_ws: &Workspace, ti: int, leaf: NodeId)
        requires
            old_ws.wf(),
            0 <= ti < old_ws.tab_view().len(),
            new_ws.node_view() == old_ws.node_view(),
            new_ws.parent_view() == old_ws.parent_view(),
            new_ws.rank_view() == old_ws.rank_view(),
            new_ws.bound_view() == old_ws.bound_view(),
            new_ws.active_tab_view() == old_ws.active_tab_view(),
            new_ws.tab_view() == old_ws.tab_view().update(ti, Tab { active_leaf: leaf, ..old_ws.tab_view()[ti] }),
            old_ws.node_view().dom().contains(leaf.0),
            old_ws.node_view()[leaf.0] is Leaf,
            old_ws.top_of(leaf.0) == old_ws.tab_view()[ti].root.0,
        ensures
            new_ws.wf(),
    {
        let t = new_ws.tab_view();
        let t0 = old_ws.tab_view();
        assert(roots_ok(new_ws.node_view(), new_ws.parent_view(), t)) by {
            reveal(roots_ok);
            assert forall|k: u64| #[trigger] new_ws.node_view().dom().contains(k) && !new_ws.parent_view().dom().contains(k) implies exists|i: int|
                0 <= i < t.len() && (#[trigger] t[i]).root.0 == k by {
                let i = choose|i: int| 0 <= i < t0.len() && (#[trigger] t0[i]).root.0 == k;
                assert(t[i].root == t0[i].root);
            }
        }
        assert(tabs_ok(new_ws.node_view(), new_ws.parent_view(), new_ws.rank_view(), new_ws.bound_view(), t)) by {
            reveal(tabs_ok);
            assert forall|i: int, j: int|
                0 <= i < t.len() && 0 <= j < t.len() && i != j implies (#[trigger] t[i]).root != (
                #[trigger] t[j]).root by {
                assert(t[i].root == t0[i].root && t[j].root == t0[j].root);
            }
        }
    }

    /// Move the active tab's focus to the next pane (or the previous one),
    /// in left-to-right order, wrapping around. Nothing changes when the tab
    /// has fewer than two panes.
    pub fn cycle_pane(&mut self, forward: bool)
        requires
            old(self).wf(),
        ensures
            final(self).wf(),
            final(self).node_view() == old(self).node_view(),
            final(self).parent_view() == old(self).parent_view(),
            final(self).active_tab_view() == old(self).active_tab_view(),
            ({
                let t = old(self).tab_view();
                let a = old(self).active_tab_view() as int;
                if a < t.len() {
                    let ls = leaves_in(old(self).node_view(), old(self).rank_view(), t[a].root.0);
                    if ls.len() >= 2 {
                        final(self).tab_view() == t.update(a, Tab { active_leaf: cycle_target(ls, t[a].active_leaf, forward), ..t[a] })
                    } else {
                        final(self).tab_view() == t
                    }
                } else {
                    final(self).tab_view() == t
                }
            }),
    {
        if self.active_tab >= self.tabs.len() {
            return;
        }
        let a = self.active_tab;
        let tab = self.tabs[a];
        proof {
            reveal(tabs_ok);
            reveal(nodes_ok);
            assert(self.tab_view()[a as int] == tab);
        }
        let leaves = self.leaves_of(tab.root);
        if leaves.len() < 2 {
            return;
        }
        let mut pos: usize = 0;
        let mut i: usize = 0;
        let mut found = false;
        while i < leaves.len()
            invariant_except_break
                !found,
                pos == 0,
            invariant
                0 <= i <= leaves@.len(),
                leaves@.len() >= 2,
                forall|j: int| 0 <= j < i ==> leaves@[j] != tab.active_leaf,
            ensures
                found ==> pos < leaves@.len() && leaves@[pos as int] == tab.active_leaf && forall|j: int| 0 <= j < pos ==> leaves@[j] != tab.active_leaf,
                !found ==> pos == 0 && forall|j: int| 0 <= j < leaves@.len() ==> leaves@[j] != tab.active_leaf,
            decreases leaves@.len() - i,
        {
            if leaves[i] == tab.active_leaf {
                pos = i;
                found = true;
                break;
            }
            i = i + 1;
        }
        proof {
            lemma_first_pos(leaves@, tab.active_leaf);
            if found {
                assert(first_pos(leaves@, tab.active_leaf) == pos);
            } else {
                assert(first_pos(leaves@, tab.active_leaf) < 0);
            }
        }
        let n = leaves.len();
        assert(pos < n);
        let next = if forward {
            (pos + 1) % n
        } else if pos == 0 {
            n - 1
        } else {
            pos - 1
        };
        assert(next as int == if forward {
            (pos + 1) % (n as int)
        } else {
            (pos + n - 1) % (n as int)
        }) by (nonlinear_arith)
            requires
                pos < n,
                n >= 2,
                next as int == if forward {
                    (pos + 1) as int % (n as int)
                } else if pos == 0 {
                    n - 1
                } else {
                    pos - 1
                },
        ;
        let target = leaves[next];
        let ghost old_ws = *self;
        proof {
            self.lemma_leaves_in(tab.root.0);
            assert(self.top_of(tab.root.0) == tab.root.0);
        }
        self.tabs.set(a, Tab { root: tab.root, active_leaf: target });
        proof {
            Workspace::lemma_refocus(&old_ws, self, a as int, target);
        }
    }

    /// Make tab `index` the active one.
    pub fn set_active_tab(&mut self, index: usize)
        requires
            old(self).wf(),
            index < old(self).tab_view().len(),
        ensures
            final(self).wf(),
            final(self).active_tab_view() == index,
            final(self).node_view() == old(self).node_view(),
            final(self).parent_view() == old(self).parent_view(),
            final(self).tab_view() == old(self).tab_view(),
    {
        self.active_tab = index;
    }

    /// Activate the next tab (`forward`) or the previous one, wrapping
    /// around; with no tabs nothing changes.
    pub fn step_tab(&mut self, forward: bool)
        requires
            old(self).wf(),
        ensures
            final(self).wf(),
            final(self).active_tab_view() == stepped_tab(old(self).active_tab_view(), old(self).tab_view().len(), forward),
            final(self).node_view() == old(self).node_view(),
            final(self).parent_view() == old(self).parent_view(),
            final(self).tab_view() == old(self).tab_view(),
    {
        let n = self.tabs.len();
        if n > 0 {
            let a = self.active_tab;
            let next = if forward {
                if a + 1 == n {
                    0
                } else {
                    a + 1
                }
            } else if a == 0 {
                n - 1
            } else {
                a - 1
            };
            proof {
                if forward {
                    assert(a + 1 < n ==> (a + 1) % (n as int) == a + 1) by (nonlinear_arith)
                        requires
                            n > 0,
                    ;
                    assert(a + 1 == n ==> (a + 1) % (n as int) == 0) by (nonlinear_arith)
                        requires
                            n > 0,
                    ;
                } else {
                    assert(a + n - 1 < 2 * n) by (nonlinear_arith)
                        requires
                            a < n,
                    ;
                    vstd::arithmetic::div_mod::lemma_mod_self_0(n as int);
                    if a == 0 {
                        vstd::arithmetic::div_mod::lemma_small_mod((n - 1) as nat, n as nat);
                    } else {
                        vstd::arithmetic::div_mod::lemma_mod_add_multiples_vanish((a - 1) as int, n as int);
                        vstd::arithmetic::div_mod::lemma_small_mod((a - 1) as nat, n as nat);
                        assert((a + n - 1) == (a - 1) + n);
                    }
                }
            }
            self.active_tab = next;
        }
    }

    /// Activate tab `n` (counting from 1), if there is one.
    pub fn jump_tab(&mut self, n: u8)
        requires
            old(self).wf(),
        ensures
            final(self).wf(),
            final(self).active_tab_view() == if n >= 1 && n - 1 < old(self).tab_view().len() {
                (n - 1) as nat
            } else if n == 0 && old(self).tab_view().len() > 0 {
                0
            } else {
                old(self).active_tab_view()
            },
            final(self).node_view() == old(self).node_view(),
            final(self).parent_view() == old(self).parent_view(),
            final(self).tab_view() == old(self).tab_view(),
    {
        let idx = n.saturating_sub(1) as usize;
        if idx < self.tabs.len() {
            self.active_tab = idx;
        }
    }

    /// Activate the last tab, if there is one.
    pub fn jump_last_tab(&mut self)
        requires
            old(self).wf(),
        ensures
            final(self).wf(),
            final(self).active_tab_view() == if old(self).tab_view().len() > 0 {
                (old(self).tab_view().len() - 1) as nat
            } else {
                old(self).active_tab_view()
            },
            final(self).node_view() == old(self).node_view(),
            final(self).parent_view() == old(self).parent_view(),
            final(self).tab_view() == old(self).tab_view(),
    {
        if self.tabs.len() > 0 {
            self.active_tab = self.tabs.len() - 1;
        }
    }

    /// Focus `leaf` in the tab that holds it; nothing changes when it is not
    /// a leaf of any tab.
    pub fn focus_leaf(&mut self, leaf: NodeId)
        requires
            old(self).wf(),
            valid_id(leaf),
        ensures
            final(self).wf(),
            final(self).node_view() == old(self).node_view(),
            final(self).parent_view() == old(self).parent_view(),
            final(self).active_tab_view() == old(self).active_tab_view(),
            ({
                let t = old(self).tab_view();
                if old(self).node_view().dom().contains(leaf.0) && old(self).node_view()[leaf.0] is Leaf
                    && exists|i: int| 0 <= i < t.len() && (#[trigger] t[i]).root.0 == old(self).top_of(leaf.0) {
                    exists|i: int|
                        tab_with_root(t, old(self).top_of(leaf.0), i) && final(self).tab_view() == t.update(
                            i,
                            Tab { active_leaf: leaf, ..t[i] },
                        )
                } else {
                    final(self).tab_view() == t
                }
            }),
    {
        let is_leaf = match arena_get(&self.nodes, leaf) {
            Some(PaneNode::Leaf { .. }) => true,
            _ => false,
        };
        if !is_leaf {
            return;
        }
        match self.tab_of(leaf) {
            Some(i) => {
                let ghost old_ws = *self;
                let root = self.tabs[i].root;
                self.tabs.set(i, Tab { root, active_leaf: leaf });
                proof {
                    Workspace::lemma_refocus(&old_ws, self, i as int, leaf);
                }
            },
            None => {},
        }
    }
}

/// The root above a live node is a live tab root.
pub proof fn lemma_top_is_root(
    n: Map<u64, PaneNode>,
    p: Map<u64, u64>,
    r: Map<u64, nat>,
    b: nat,
    t: Seq<Tab>,
    a: nat,
    x: u64,
)
    requires
        nodes_ok(n, r, b),
        parents_ok(n, p),
        children_ok(n, p, r),
        roots_ok(n, p, t),
        n.dom().contains(x),
    ensures
        n.dom().contains(top(p, r, b, x)),
        !p.dom().contains(top(p, r, b, x)),
        exists|i: int| 0 <= i < t.len() && (#[trigger] t[i]).root.0 == top(p, r, b, x),
    decreases b - r[x],
{
    reveal(nodes_ok);
    reveal(parents_ok);
    reveal(children_ok);
    reveal(roots_ok);
    if p.contains_key(x) {
        let k = p[x];
        let cs = children_of(n[k]);
        assert(cs.contains(NodeId(x)));
        let i = choose|i: int| 0 <= i < cs.len() && cs[i] == NodeId(x);
        assert(children_of(n[k])[i].0 == x);
        lemma_top_is_root(n, p, r, b, t, a, k);
    }
}

/// `top` depends only on the parent links of the nodes it walks through
/// and on the order of their ranks.
pub proof fn lemma_top_monotone(
    p: Map<u64, u64>,
    r: Map<u64, nat>,
    b: nat,
    p2: Map<u64, u64>,
    r2: Map<u64, nat>,
    b2: nat,
    d: Set<u64>,
    k: u64,
)
    requires
        d.contains(k),
        forall|x: u64| #[trigger] d.contains(x) ==> r[x] < b && r2[x] < b2 && p2.contains_key(x) == p.contains_key(x),
        forall|x: u64| #[trigger] p.contains_key(x) && d.contains(x) ==> d.contains(p[x]) && p2[x] == p[x],
        forall|x: u64, y: u64| #[trigger] d.contains(x) && #[trigger] d.contains(y) ==> (r[x] < r[y]) == (r2[x] < r2[y]),
    ensures
        top(p2, r2, b2, k) == top(p, r, b, k),
    decreases b - r[k],
{
    if p.contains_key(k) && r[k] < r[p[k]] {
        lemma_top_monotone(p, r, b, p2, r2, b2, d, p[k]);
    }
}

/// Inserting a fresh element keeps a sequence free of duplicates.
pub proof fn lemma_insert_no_dup(cs: Seq<NodeId>, i: int, x: NodeId)
    requires
        cs.no_duplicates(),
        !cs.contains(x),
        0 <= i <= cs.len(),
    ensures
        cs.insert(i, x).no_duplicates(),
        cs.insert(i, x).len() == cs.len() + 1,
{
    let c2 = cs.insert(i, x);
    assert forall|a: int, b: int| 0 <= a < c2.len() && 0 <= b < c2.len() && a != b implies c2[a] != c2[b] by {
        if a != i && b != i {
            let aa = if a < i { a } else { a - 1 };
            let bb = if b < i { b } else { b - 1 };
            assert(c2[a] == cs[aa] && c2[b] == cs[bb]);
        } else if a == i {
            let bb = if b < i { b } else { b - 1 };
            assert(c2[b] == cs[bb]);
        } else {
            let aa = if a < i { a } else { a - 1 };
            assert(c2[a] == cs[aa]);
        }
    }
}

/// The parts after a same-direction split: the new leaf `new` joins the
/// children of `pid` right after position `idx`.
pub proof fn lemma_split_append(
    n: Map<u64, PaneNode>,
    p: Map<u64, u64>,
    r: Map<u64, nat>,
    b: nat,
    t: Seq<Tab>,
    a: nat,
    at: u64,
    pid: u64,
    idx: int,
    new: u64,
    s: SessionId,
    n2: Map<u64, PaneNode>,
)
    requires
        wf_parts(n, p, r, b, t, a),
        n.dom().contains(at),
        p.contains_key(at),
        pid == p[at],
        n[pid] is Split,
        0 <= idx < children_of(n[pid]).len(),
        children_of(n[pid])[idx] == NodeId(at),
        !n.dom().contains(new),
        key_canon(new) == new,
        key_slot(new) < 0xffff_ffff,
        forall|x: u64| #[trigger] n.dom().contains(x) ==> key_slot(x) != key_slot(new),
        n2.dom() == n.dom().insert(new),
        n2[new] == (PaneNode::Leaf { session: s }),
        n2[pid] is Split,
        children_of(n2[pid]) == children_of(n[pid]).insert(idx + 1, NodeId(new)),
        forall|x: u64| #[trigger] n.dom().contains(x) && x != pid ==> n2[x] == n[x],
    ensures
        wf_parts(n2, p.insert(new, pid), r.insert(new, 0), b, t, a),
        top(p.insert(new, pid), r.insert(new, 0), b, new) == top(p, r, b, at),
        forall|x: u64| #[trigger] n.dom().contains(x) ==> top(p.insert(new, pid), r.insert(new, 0), b, x) == top(p, r, b, x),
{
    let p2 = p.insert(new, pid);
    let r2 = r.insert(new, 0);
    let cs = children_of(n[pid]);
    let cs2 = children_of(n2[pid]);
    assert(n.dom().contains(pid) && r[at] < r[pid] && r[pid] < b && n.dom().contains(at)) by {
        reveal(children_ok);
        reveal(parents_ok);
        reveal(nodes_ok);
        assert(children_of(n[pid])[idx].0 == at);
    }
    assert(forall|j: int| 0 <= j < cs.len() ==> n.dom().contains(#[trigger] cs[j].0)) by {
        reveal(children_ok);
        assert forall|j: int| 0 <= j < cs.len() implies n.dom().contains(#[trigger] cs[j].0) by {
            assert(children_of(n[pid])[j] == cs[j]);
        }
    }
    assert(nodes_ok(n2, r2, b)) by {
        reveal(nodes_ok);
        assert forall|k1: u64, k2: u64|
            #[trigger] n2.dom().contains(k1) && #[trigger] n2.dom().contains(k2) && k1 != k2 implies key_slot(k1) != key_slot(k2) by {
            if k1 != new && k2 != new {
                assert(n.dom().contains(k1) && n.dom().contains(k2));
            }
        }
    }
    assert(parents_ok(n2, p2)) by {
        reveal(parents_ok);
        assert forall|k: u64| #[trigger] p2.dom().contains(k) implies n2.dom().contains(k) && n2.dom().contains(p2[k])
            && n2[p2[k]] is Split && children_of(n2[p2[k]]).contains(NodeId(k)) by {
            if k == new {
                assert(cs2[idx + 1] == NodeId(new));
            } else {
                let q = p[k];
                if q == pid {
                    let j = choose|j: int| 0 <= j < cs.len() && cs[j] == NodeId(k);
                    if j <= idx {
                        assert(cs2[j] == NodeId(k));
                    } else {
                        assert(cs2[j + 1] == NodeId(k));
                    }
                } else {
                    assert(n2[q] == n[q]);
                }
            }
        }
    }
    assert(children_ok(n2, p2, r2)) by {
        reveal(children_ok);
        assert(!cs.contains(NodeId(new)));
        lemma_insert_no_dup(cs, idx + 1, NodeId(new));
        assert forall|k: u64| #[trigger] n2.dom().contains(k) && n2[k] is Split implies children_of(n2[k]).len() >= 2
            && children_of(n2[k]).no_duplicates() by {
            if k != pid {
                assert(n2[k] == n[k]);
            }
        }
        assert forall|k: u64, i: int|
            #![trigger n2[k], children_of(n2[k])[i]]
            n2.dom().contains(k) && n2[k] is Split && 0 <= i < children_of(n2[k]).len() implies {
                let c = children_of(n2[k])[i].0;
                &&& n2.dom().contains(c)
                &&& p2.dom().contains(c)
                &&& p2[c] == k
                &&& r2[c] < r2[k]
            } by {
            if k == pid {
                if i != idx + 1 {
                    let ii = if i <= idx { i } else { i - 1 };
                    assert(cs2[i] == cs[ii]);
                    assert(children_of(n[pid])[ii] == cs[ii]);
                }
            } else {
                assert(n2[k] == n[k]);
                assert(children_of(n[k])[i] == children_of(n2[k])[i]);
            }
        }
    }
    assert forall|x: u64| #[trigger] n.dom().contains(x) implies top(p2, r2, b, x) == top(p, r, b, x) by {
        assert(forall|y: u64| #[trigger] n.dom().contains(y) ==> r[y] < b) by {
            reveal(nodes_ok);
        }
        assert(forall|y: u64| #[trigger] p.contains_key(y) && n.dom().contains(y) ==> n.dom().contains(p[y])) by {
            reveal(parents_ok);
        }
        lemma_top_monotone(p, r, b, p2, r2, b, n.dom(), x);
    }
    assert(roots_ok(n2, p2, t)) by {
        reveal(roots_ok);
        assert forall|k: u64| #[trigger] n2.dom().contains(k) && !p2.dom().contains(k) implies exists|i: int|
            0 <= i < t.len() && (#[trigger] t[i]).root.0 == k by {
            assert(n.dom().contains(k) && !p.dom().contains(k));
        }
    }
    assert(tabs_ok(n2, p2, r2, b, t)) by {
        reveal(tabs_ok);
        assert forall|i: int| 0 <= i < t.len() implies {
            let tab = #[trigger] t[i];
            &&& n2.dom().contains(tab.root.0)
            &&& !p2.dom().contains(tab.root.0)
            &&& n2.dom().contains(tab.active_leaf.0)
            &&& n2[tab.active_leaf.0] is Leaf
            &&& top(p2, r2, b, tab.active_leaf.0) == tab.root.0
        } by {
            let al = t[i].active_leaf.0;
            assert(al != pid);
            assert(n2[al] == n[al]);
            assert(top(p2, r2, b, al) == top(p, r, b, al));
        }
    }
}

/// A parent is live and ranks above its child.
pub proof fn lemma_parent_rank_parts(
    n: Map<u64, PaneNode>,
    p: Map<u64, u64>,
    r: Map<u64, nat>,
    b: nat,
    t: Seq<Tab>,
    a: nat,
    x: u64,
)
    requires
        wf_parts(n, p, r, b, t, a),
        p.contains_key(x),
    ensures
        n.dom().contains(x),
        n.dom().contains(p[x]),
        n[p[x]] is Split,
        r[x] < r[p[x]],
        r[p[x]] < b,
{
    reveal(parents_ok);
    reveal(children_ok);
    reveal(nodes_ok);
    let k = p[x];
    let cs = children_of(n[k]);
    assert(cs.contains(NodeId(x)));
    let i = choose|i: int| 0 <= i < cs.len() && cs[i] == NodeId(x);
    assert(children_of(n[k])[i].0 == x);
}

/// The parent links after promoting `at`: its children now hang under
/// `moved`, which hangs under `at` beside `new`.
pub open spec fn promoted_parents(p: Map<u64, u64>, at: u64, moved: u64, new: u64) -> Map<u64, u64> {
    p.map_values(|v: u64| if v == at { moved } else { v }).insert(moved, at).insert(new, at)
}

/// Ranks after promoting `at`: every rank doubled (plus one) to make room
/// for `moved` just below `at`.
pub open spec fn promoted_ranks(r: Map<u64, nat>, at: u64, moved: u64, new: u64) -> Map<u64, nat> {
    r.map_values(|v: nat| 2 * v + 1).insert(moved, 2 * r[at]).insert(new, 0)
}

/// Promoting `at` keeps the root above every existing node.
pub proof fn lemma_top_promote(
    n: Map<u64, PaneNode>,
    p: Map<u64, u64>,
    r: Map<u64, nat>,
    b: nat,
    t: Seq<Tab>,
    a: nat,
    at: u64,
    moved: u64,
    new: u64,
    x: u64,
)
    requires
        wf_parts(n, p, r, b, t, a),
        n.dom().contains(at),
        n.dom().contains(x),
        !n.dom().contains(moved),
        !n.dom().contains(new),
        moved != new,
    ensures
        top(promoted_parents(p, at, moved, new), promoted_ranks(r, at, moved, new), 2 * b + 1, x) == top(p, r, b, x),
    decreases b - r[x],
{
    let p2 = promoted_parents(p, at, moved, new);
    let r2 = promoted_ranks(r, at, moved, new);
    let b2 = 2 * b + 1;
    assert(r.contains_key(x) && r[x] < b && r.contains_key(at) && r[at] < b) by {
        reveal(nodes_ok);
    }
    assert(x != moved && x != new);
    assert(r2[x] == 2 * r[x] + 1);
    if p.contains_key(x) {
        let y = p[x];
        lemma_parent_rank_parts(n, p, r, b, t, a, x);
        assert(r.contains_key(y)) by {
            reveal(nodes_ok);
        }
        lemma_top_promote(n, p, r, b, t, a, at, moved, new, y);
        assert(p2.contains_key(x));
        if y == at {
            assert(p2[x] == moved);
            assert(r2[moved] == 2 * r[at]);
            assert(top(p2, r2, b2, x) == top(p2, r2, b2, moved));
            assert(p2[moved] == at);
            assert(r2[at] == 2 * r[at] + 1);
            assert(top(p2, r2, b2, moved) == top(p2, r2, b2, at));
        } else {
            assert(p2[x] == y);
            assert(r2[y] == 2 * r[y] + 1);
        }
    } else {
        assert(!p2.contains_key(x));
    }
}

/// The parts after promoting `at` into a split of `moved` (its former
/// content) and the new leaf `new`, with focus on `at` moved to `moved`.
pub proof fn lemma_split_promote(
    n: Map<u64, PaneNode>,
    p: Map<u64, u64>,
    r: Map<u64, nat>,
    b: nat,
    t: Seq<Tab>,
    a: nat,
    at: u64,
    moved: u64,
    new: u64,
    s: SessionId,
    dir: SplitDir,
    n2: Map<u64, PaneNode>,
    t2: Seq<Tab>,
)
    requires
        wf_parts(n, p, r, b, t, a),
        n.dom().contains(at),
        !n.dom().contains(moved),
        !n.dom().contains(new),
        moved != new,
        key_canon(new) == new,
        key_canon(moved) == moved,
        key_slot(new) < 0xffff_ffff,
        key_slot(moved) < 0xffff_ffff,
        key_slot(new) != key_slot(moved),
        forall|x: u64| #[trigger] n.dom().contains(x) ==> key_slot(x) != key_slot(new) && key_slot(x) != key_slot(moved),
        n2.dom() == n.dom().insert(new).insert(moved),
        n2[new] == (PaneNode::Leaf { session: s }),
        (n2[moved] is Split) == (n[at] is Split),
        children_of(n2[moved]) == children_of(n[at]),
        n2[at] is Split,
        children_of(n2[at]) == seq![NodeId(moved), NodeId(new)],
        forall|x: u64| #[trigger] n.dom().contains(x) && x != at ==> n2[x] == n[x],
        t2.len() == t.len(),
        forall|i: int| 0 <= i < t.len() ==> #[trigger] t2[i] == if t[i].active_leaf.0 == at {
            Tab { active_leaf: NodeId(moved), ..t[i] }
        } else {
            t[i]
        },
    ensures
        wf_parts(n2, promoted_parents(p, at, moved, new), promoted_ranks(r, at, moved, new), 2 * b + 1, t2, a),
        top(promoted_parents(p, at, moved, new), promoted_ranks(r, at, moved, new), 2 * b + 1, new) == top(p, r, b, at),
        forall|x: u64| #[trigger] n.dom().contains(x) ==> top(promoted_parents(p, at, moved, new), promoted_ranks(r, at, moved, new), 2 * b + 1, x) == top(p, r, b, x),
{
    let p2 = promoted_parents(p, at, moved, new);
    let r2 = promoted_ranks(r, at, moved, new);
    let b2 = 2 * b + 1;
    assert(forall|x: u64| #[trigger] n.dom().contains(x) ==> r.contains_key(x) && r[x] < b) by {
        reveal(nodes_ok);
    }
    assert(forall|x: u64| #[trigger] p.contains_key(x) ==> n.dom().contains(x) && n.dom().contains(p[x])) by {
        reveal(parents_ok);
    }
    assert forall|x: u64| #[trigger] n.dom().contains(x) implies top(p2, r2, b2, x) == top(p, r, b, x) by {
        lemma_top_promote(n, p, r, b, t, a, at, moved, new, x);
    }
    assert(top(p2, r2, b2, new) == top(p, r, b, at)) by {
        lemma_top_promote(n, p, r, b, t, a, at, moved, new, at);
    }
    assert(top(p2, r2, b2, moved) == top(p, r, b, at)) by {
        lemma_top_promote(n, p, r, b, t, a, at, moved, new, at);
    }
    assert(nodes_ok(n2, r2, b2)) by {
        reveal(nodes_ok);
        assert forall|k1: u64, k2: u64|
            #[trigger] n2.dom().contains(k1) && #[trigger] n2.dom().contains(k2) && k1 != k2 implies key_slot(k1) != key_slot(k2) by {
            if k1 != new && k2 != new && k1 != moved && k2 != moved {
                assert(n.dom().contains(k1) && n.dom().contains(k2));
            }
        }
    }
    assert(parents_ok(n2, p2)) by {
        reveal(parents_ok);
        assert forall|k: u64| #[trigger] p2.dom().contains(k) implies n2.dom().contains(k) && n2.dom().contains(p2[k])
            && n2[p2[k]] is Split && children_of(n2[p2[k]]).contains(NodeId(k)) by {
            if k == new {
                assert(children_of(n2[at])[1] == NodeId(new));
            } else if k == moved {
                assert(children_of(n2[at])[0] == NodeId(moved));
            } else {
                let q = p[k];
                if q == at {
                    assert(p2[k] == moved);
                } else {
                    assert(p2[k] == q);
                    assert(n2[q] == n[q]);
                }
            }
        }
    }
    assert(children_ok(n2, p2, r2)) by {
        reveal(children_ok);
        assert forall|k: u64| #[trigger] n2.dom().contains(k) && n2[k] is Split implies children_of(n2[k]).len() >= 2
            && children_of(n2[k]).no_duplicates() by {
            if k == at {
                assert(children_of(n2[at])[0] != children_of(n2[at])[1]);
            } else if k == moved {
            } else {
                assert(n2[k] == n[k]);
            }
        }
        assert forall|k: u64, i: int|
            #![trigger n2[k], children_of(n2[k])[i]]
            n2.dom().contains(k) && n2[k] is Split && 0 <= i < children_of(n2[k]).len() implies {
                let c = children_of(n2[k])[i].0;
                &&& n2.dom().contains(c)
                &&& p2.dom().contains(c)
                &&& p2[c] == k
                &&& r2[c] < r2[k]
            } by {
            if k == at {
                assert(r2[at] == 2 * r[at] + 1);
            } else if k == moved {
                let c = children_of(n[at])[i].0;
                assert(children_of(n2[moved])[i].0 == c);
                assert(n.dom().contains(c) && p[c] == at && r[c] < r[at]);
                assert(c != moved && c != new);
                assert(r2[c] == 2 * r[c] + 1);
            } else {
                assert(n2[k] == n[k]);
                let c = children_of(n[k])[i].0;
                assert(children_of(n2[k])[i].0 == c);
                assert(n.dom().contains(c) && p[c] == k && r[c] < r[k]);
                assert(c != moved && c != new);
                assert(r2[c] == 2 * r[c] + 1);
                assert(r2[k] == 2 * r[k] + 1);
            }
        }
    }
    assert(roots_ok(n2, p2, t2)) by {
        reveal(roots_ok);
        assert forall|k: u64| #[trigger] n2.dom().contains(k) && !p2.dom().contains(k) implies exists|i: int|
            0 <= i < t2.len() && (#[trigger] t2[i]).root.0 == k by {
            assert(n.dom().contains(k) && !p.dom().contains(k));
            let i = choose|i: int| 0 <= i < t.len() && (#[trigger] t[i]).root.0 == k;
            assert(t2[i].root == t[i].root);
        }
    }
    assert(tabs_ok(n2, p2, r2, b2, t2)) by {
        reveal(tabs_ok);
        assert forall|i: int| 0 <= i < t2.len() implies {
            let tab = #[trigger] t2[i];
            &&& n2.dom().contains(tab.root.0)
            &&& !p2.dom().contains(tab.root.0)
            &&& n2.dom().contains(tab.active_leaf.0)
            &&& n2[tab.active_leaf.0] is Leaf
            &&& top(p2, r2, b2, tab.active_leaf.0) == tab.root.0
        } by {
            let al = t[i].active_leaf.0;
            assert(t2[i].root == t[i].root);
            if al == at {
                assert(t2[i].active_leaf.0 == moved);
            } else {
                assert(t2[i].active_leaf.0 == al);
                assert(n2[al] == n[al]);
            }
        }
        assert forall|i: int, j: int|
            0 <= i < t2.len() && 0 <= j < t2.len() && i != j implies (#[trigger] t2[i]).root != (
            #[trigger] t2[j]).root by {
            assert(t2[i].root == t[i].root && t2[j].root == t[j].root);
        }
    }
}

/// `p` with every node of `cs` hung under `m`.
pub open spec fn reparented(p: Map<u64, u64>, cs: Seq<NodeId>, m: u64) -> Map<u64, u64>
    decreases cs.len(),
{
    if cs.len() == 0 {
        p
    } else {
        reparented(p, cs.drop_last(), m).insert(cs.last().0, m)
    }
}

pub proof fn lemma_reparented(p: Map<u64, u64>, cs: Seq<NodeId>, m: u64)
    ensures
        forall|x: u64| #[trigger] reparented(p, cs, m).contains_key(x) == (p.contains_key(x) || ids_set(cs).contains(x)),
        forall|x: u64| #[trigger] reparented(p, cs, m).contains_key(x) ==> reparented(p, cs, m)[x] == if ids_set(cs).contains(x) {
            m
        } else {
            p[x]
        },
    decreases cs.len(),
{
    if cs.len() == 0 {
        assert forall|x: u64| !ids_set(cs).contains(x) by {}
    } else {
        let pre = cs.drop_last();
        lemma_reparented(p, pre, m);
        assert forall|x: u64| ids_set(cs).contains(x) == (ids_set(pre).contains(x) || x == cs.last().0) by {
            if ids_set(pre).contains(x) {
                let j = choose|j: int| 0 <= j < pre.len() && pre[j].0 == x;
                assert(cs[j] == pre[j]);
            }
            if ids_set(cs).contains(x) {
                let j = choose|j: int| 0 <= j < cs.len() && cs[j].0 == x;
                if j < cs.len() - 1 {
                    assert(pre[j] == cs[j]);
                }
            }
            if x == cs.last().0 {
                assert(cs[cs.len() - 1].0 == x);
            }
        }
        let rp = reparented(p, pre, m);
        assert(reparented(p, cs, m) == rp.insert(cs.last().0, m));
        assert forall|x: u64| #[trigger] reparented(p, cs, m).contains_key(x) == (p.contains_key(x) || ids_set(cs).contains(x)) by {
            assert(ids_set(cs).contains(x) == (ids_set(pre).contains(x) || x == cs.last().0));
        }
        assert forall|x: u64| #[trigger] reparented(p, cs, m).contains_key(x) implies reparented(p, cs, m)[x] == if ids_set(cs).contains(x) {
            m
        } else {
            p[x]
        } by {
            assert(ids_set(cs).contains(x) == (ids_set(pre).contains(x) || x == cs.last().0));
        }
    }
}

/// The keys of a sequence of ids.
pub open spec fn ids_set(cs: Seq<NodeId>) -> Set<u64> {
    Set::new(|x: u64| exists|j: int| 0 <= j < cs.len() && cs[j].0 == x)
}

/// Where a split put the new pane.
#[derive(Debug, Clone, Copy, PartialEq, Eq)]
pub struct SplitOutcome {
    /// The new pane.
    pub new_leaf: NodeId,
    /// The split that now holds it.
    pub split: NodeId,
    /// Its position among that split's children.
    pub index: usize,
    /// When the split pane was promoted into a new split: the node that took
    /// over its former content (the split's first child).
    pub moved: Option<NodeId>,
}

/// Two nodes of the same kind with the same content.
pub open spec fn same_pane(x: PaneNode, y: PaneNode) -> bool {
    match (x, y) {
        (PaneNode::Leaf { session: a }, PaneNode::Leaf { session: c }) => a == c,
        (PaneNode::Split { dir: d1, children: c1 }, PaneNode::Split { dir: d2, children: c2 }) => d1 == d2 && c1@ == c2@,
        _ => false,
    }
}

/// Splitting `at` in direction `dir` appends to its parent when the parent
/// is a split in that same direction.
pub open spec fn split_appends(n: Map<u64, PaneNode>, p: Map<u64, u64>, at: u64, dir: SplitDir) -> bool {
    p.contains_key(at) && (n[p[at]] matches PaneNode::Split { dir: d, .. } && d == dir)
}

/// What a split does to the nodes, the parent links and the tabs.
pub open spec fn split_spec(
    n: Map<u64, PaneNode>,
    p: Map<u64, u64>,
    t: Seq<Tab>,
    top_at: u64,
    at: u64,
    dir: SplitDir,
    s: SessionId,
    n2: Map<u64, PaneNode>,
    p2: Map<u64, u64>,
    t2: Seq<Tab>,
    out: SplitOutcome,
) -> bool {
    let new = out.new_leaf.0;
    &&& !n.dom().contains(new)
    &&& n2[new] == (PaneNode::Leaf { session: s })
    &&& exists|ti: int| tab_with_root(t, top_at, ti) && t2 == t.update(ti, Tab { active_leaf: out.new_leaf, ..t[ti] })
    &&& if split_appends(n, p, at, dir) {
        let pid = p[at];
        &&& out.moved is None
        &&& out.split.0 == pid
        &&& out.index == first_pos(children_of(n[pid]), NodeId(at)) + 1
        &&& n2.dom() == n.dom().insert(new)
        &&& n2[pid] == (PaneNode::Split { dir, children: n2[pid]->children })
        &&& children_of(n2[pid]) == children_of(n[pid]).insert(out.index as int, out.new_leaf)
        &&& forall|x: u64| #[trigger] n.dom().contains(x) && x != pid ==> n2[x] == n[x]
        &&& p2 == p.insert(new, pid)
    } else {
        let moved = match out.moved {
            Some(m) => m.0,
            None => 0,
        };
        &&& out.moved is Some
        &&& out.split.0 == at
        &&& out.index == 1
        &&& !n.dom().contains(moved)
        &&& moved != new
        &&& n2.dom() == n.dom().insert(new).insert(moved)
        &&& same_pane(n2[moved], n[at])
        &&& n2[at] == (PaneNode::Split { dir, children: n2[at]->children })
        &&& children_of(n2[at]) == seq![NodeId(moved), out.new_leaf]
        &&& forall|x: u64| #[trigger] n.dom().contains(x) && x != at ==> n2[x] == n[x]
        &&& p2 == promoted_parents(p, at, moved, new)
    }
}

fn copy_ids(v: &Vec<NodeId>) -> (r: Vec<NodeId>)
    ensures
        r@ == v@,
{
    let mut out: Vec<NodeId> = Vec::new();
    let mut i: usize = 0;
    while i < v.len()
        invariant
            0 <= i <= v@.len(),
            out@ == v@.subrange(0, i as int),
        decreases v@.len() - i,
    {
        out.push(v[i]);
        i = i + 1;
        assert(out@ =~= v@.subrange(0, i as int));
    }
    assert(v@.subrange(0, i as int) =~= v@);
    out
}

/// Position of the first `x` in `v` (or 0 when there is none).
fn position_of(v: &Vec<NodeId>, x: NodeId) -> (r: usize)
    ensures
        r as int == if first_pos(v@, x) >= 0 {
            first_pos(v@, x)
        } else {
            0
        },
{
    proof {
        lemma_first_pos(v@, x);
    }
    let mut i: usize = 0;
    while i < v.len()
        invariant
            0 <= i <= v@.len(),
            forall|j: int| 0 <= j < i ==> v@[j] != x,
            -1 <= first_pos(v@, x) < v@.len(),
            first_pos(v@, x) >= 0 ==> v@[first_pos(v@, x)] == x,
            forall|j: int| 0 <= j < v@.len() && (first_pos(v@, x) < 0 || j < first_pos(v@, x)) ==> #[trigger] v@[j] != x,
        decreases v@.len() - i,
    {
        if v[i] == x {
            return i;
        }
        i = i + 1;
    }
    0
}

impl Workspace {
    /// Add `new_leaf` (already in the arena, parentless) to the children of
    /// `pid`, right after `at_leaf`.
    fn attach_sibling(
        &mut self,
        at_leaf: NodeId,
        pid: NodeId,
        new_leaf: NodeId,
        dir: SplitDir,
        Ghost(n0): Ghost<Map<u64, PaneNode>>,
        Ghost(s): Ghost<SessionId>,
    ) -> (idx: usize)
        requires
            wf_parts(n0, old(self).parent_view(), old(self).rank_view(), old(self).bound_view(), old(self).tab_view(), old(self).active_tab_view()),
            old(self).node_view() == n0.insert(new_leaf.0, PaneNode::Leaf { session: s }),
            n0.dom().contains(at_leaf.0),
            valid_id(pid),
            old(self).parent_view().contains_key(at_leaf.0),
            old(self).parent_view()[at_leaf.0] == pid.0,
            n0[pid.0] matches PaneNode::Split { dir: d, .. } && d == dir,
            !n0.dom().contains(new_leaf.0),
            key_canon(new_leaf.0) == new_leaf.0,
            key_slot(new_leaf.0) < 0xffff_ffff,
            forall|x: u64| #[trigger] n0.dom().contains(x) ==> key_slot(x) != key_slot(new_leaf.0),
        ensures
            final(self).wf(),
            final(self).tab_view() == old(self).tab_view(),
            final(self).active_tab_view() == old(self).active_tab_view(),
            idx == first_pos(children_of(n0[pid.0]), at_leaf) + 1,
            final(self).node_view().dom() == n0.dom().insert(new_leaf.0),
            final(self).node_view()[new_leaf.0] == (PaneNode::Leaf { session: s }),
            final(self).node_view()[pid.0] == (PaneNode::Split { dir, children: final(self).node_view()[pid.0]->children }),
            children_of(final(self).node_view()[pid.0]) == children_of(n0[pid.0]).insert(idx as int, new_leaf),
            forall|x: u64| #[trigger] n0.dom().contains(x) && x != pid.0 ==> final(self).node_view()[x] == n0[x],
            final(self).parent_view() == old(self).parent_view().insert(new_leaf.0, pid.0),
            final(self).top_of(new_leaf.0) == top(old(self).parent_view(), old(self).rank_view(), old(self).bound_view(), at_leaf.0),
    {
        let ghost p0 = self.parent_view();
        let ghost r0 = self.rank_view();
        let ghost b0 = self.bound_view();
        let ghost t0 = self.tab_view();
        let ghost a0 = self.active_tab_view();
        proof {
            lemma_parent_rank_parts(n0, p0, r0, b0, t0, a0, at_leaf.0);
            assert(pid.0 != new_leaf.0);
        }
        let mut cs = match arena_get(&self.nodes, pid) {
            Some(PaneNode::Split { children, .. }) => copy_ids(children),
            _ => Vec::new(),
        };
        assert(cs@ == children_of(n0[pid.0]));
        let idx = position_of(&cs, at_leaf);
        proof {
            reveal(parents_ok);
            lemma_first_pos(cs@, at_leaf);
            assert(cs@.contains(at_leaf));
        }
        assert(idx < cs.len());
        cs.insert(idx + 1, new_leaf);
        arena_set(&mut self.nodes, pid, PaneNode::Split { dir, children: cs });
        proof {
            reveal(parents_ok);
            reveal(nodes_ok);
            assert forall|x: u64| #[trigger] p0.dom().contains(x) && x != new_leaf.0 implies key_slot(x) != key_slot(new_leaf.0) by {
                assert(n0.dom().contains(x));
            }
        }
        parents_insert(&mut self.parent, new_leaf, pid);
        proof {
            self.rank@ = r0.insert(new_leaf.0, 0);
            assert(self.node_view().dom() =~= n0.dom().insert(new_leaf.0));
            lemma_split_append(n0, p0, r0, b0, t0, a0, at_leaf.0, pid.0, idx as int, new_leaf.0, s, self.node_view());
        }
        idx + 1
    }

    /// Turn `at_leaf` into a split of a copy of its content (a new node,
    /// returned) and `new_leaf` (already in the arena, parentless).
    fn promote(
        &mut self,
        at_leaf: NodeId,
        new_leaf: NodeId,
        dir: SplitDir,
        Ghost(n0): Ghost<Map<u64, PaneNode>>,
        Ghost(s): Ghost<SessionId>,
    ) -> (moved: NodeId)
        requires
            wf_parts(n0, old(self).parent_view(), old(self).rank_view(), old(self).bound_view(), old(self).tab_view(), old(self).active_tab_view()),
            old(self).node_view() == n0.insert(new_leaf.0, PaneNode::Leaf { session: s }),
            valid_id(at_leaf),
            n0.dom().contains(at_leaf.0),
            n0.dom().len() < 0xffff_ff00,
            !n0.dom().contains(new_leaf.0),
            key_canon(new_leaf.0) == new_leaf.0,
            key_slot(new_leaf.0) < 0xffff_ffff,
            forall|x: u64| #[trigger] n0.dom().contains(x) ==> key_slot(x) != key_slot(new_leaf.0),
        ensures
            final(self).wf(),
            final(self).active_tab_view() == old(self).active_tab_view(),
            !n0.dom().contains(moved.0),
            moved != new_leaf,
            final(self).node_view().dom() == n0.dom().insert(new_leaf.0).insert(moved.0),
            final(self).node_view()[new_leaf.0] == (PaneNode::Leaf { session: s }),
            same_pane(final(self).node_view()[moved.0], n0[at_leaf.0]),
            final(self).node_view()[at_leaf.0] == (PaneNode::Split { dir, children: final(self).node_view()[at_leaf.0]->children }),
            children_of(final(self).node_view()[at_leaf.0]) == seq![moved, new_leaf],
            forall|x: u64| #[trigger] n0.dom().contains(x) && x != at_leaf.0 ==> final(self).node_view()[x] == n0[x],
            final(self).parent_view() == promoted_parents(old(self).parent_view(), at_leaf.0, moved.0, new_leaf.0),
            final(self).top_of(new_leaf.0) == top(old(self).parent_view(), old(self).rank_view(), old(self).bound_view(), at_leaf.0),
            final(self).tab_view().len() == old(self).tab_view().len(),
            forall|i: int| 0 <= i < old(self).tab_view().len() ==> #[trigger] final(self).tab_view()[i] == if old(self).tab_view()[i].active_leaf.0 == at_leaf.0 {
                Tab { active_leaf: moved, ..old(self).tab_view()[i] }
            } else {
                old(self).tab_view()[i]
            },
    {
        let ghost p0 = self.parent_view();
        let ghost r0 = self.rank_view();
        let ghost b0 = self.bound_view();
        let ghost t0 = self.tab_view();
        let ghost a0 = self.active_tab_view();
        assert(n0.dom().finite() && n0.dom().len() + 1 < 0xffff_fff0 && self.node_view().dom().contains(at_leaf.0)) by {
            reveal(nodes_ok);
        }
        let payload = match arena_get(&self.nodes, at_leaf) {
            Some(PaneNode::Leaf { session }) => PaneNode::Leaf { session: *session },
            Some(PaneNode::Split { dir: d, children }) => PaneNode::Split { dir: *d, children: copy_ids(children) },
            None => PaneNode::Leaf { session: SessionId(0) },
        };
        let child_list = match &payload {
            PaneNode::Split { children, .. } => copy_ids(children),
            PaneNode::Leaf { .. } => Vec::new(),
        };
        assert(child_list@ == children_of(n0[at_leaf.0]));
        assert(self.node_view().dom() =~= n0.dom().insert(new_leaf.0));
        let ghost n1 = self.node_view();
        let moved = arena_insert(&mut self.nodes, payload);
        assert(forall|x: u64| #[trigger] n0.dom().contains(x) ==> key_slot(x) != key_slot(moved.0)) by {
            assert forall|x: u64| #[trigger] n0.dom().contains(x) implies key_slot(x) != key_slot(moved.0) by {
                assert(n1.dom().contains(x));
            }
        }
        assert(key_slot(new_leaf.0) != key_slot(moved.0)) by {
            assert(n1.dom().contains(new_leaf.0));
        }
        arena_set(&mut self.nodes, at_leaf, PaneNode::Split { dir, children: vec![moved, new_leaf] });
        // The former children of the promoted node now hang under `moved`.
        assert(forall|x: u64| #[trigger] p0.dom().contains(x) ==> n0.dom().contains(x)) by {
            reveal(parents_ok);
        }
        assert(forall|j: int| 0 <= j < child_list@.len() ==> n0.dom().contains(#[trigger] child_list@[j].0) && key_canon(child_list@[j].0) == child_list@[j].0) by {
            reveal(children_ok);
            reveal(nodes_ok);
            assert forall|j: int| 0 <= j < child_list@.len() implies n0.dom().contains(#[trigger] child_list@[j].0) && key_canon(child_list@[j].0) == child_list@[j].0 by {
                assert(children_of(n0[at_leaf.0])[j] == child_list@[j]);
            }
        }
        assert(forall|k1: u64, k2: u64|
            #[trigger] n0.dom().contains(k1) && #[trigger] n0.dom().contains(k2) && k1 != k2 ==> key_slot(k1) != key_slot(k2)) by {
            reveal(nodes_ok);
        }
        assert(forall|x: u64| #[trigger] n0.dom().contains(x) ==> key_slot(x) < 0xffff_ffff) by {
            reveal(nodes_ok);
        }
        let mut i: usize = 0;
        assert(child_list@.subrange(0, 0) =~= Seq::<NodeId>::empty());
        let ghost n2 = self.node_view();
        assert(self.tabs@ == t0);
        while i < child_list.len()
            invariant
                0 <= i <= child_list@.len(),
                self.node_view() == n2,
                self.tabs@ == t0,
                self.active_tab == a0,
                self.rank@ == r0,
                self.bound@ == b0,
                forall|x: u64| #[trigger] p0.dom().contains(x) ==> n0.dom().contains(x),
                forall|j: int| 0 <= j < child_list@.len() ==> n0.dom().contains(#[trigger] child_list@[j].0) && key_canon(child_list@[j].0) == child_list@[j].0,
                forall|k1: u64, k2: u64|
                    #[trigger] n0.dom().contains(k1) && #[trigger] n0.dom().contains(k2) && k1 != k2 ==> key_slot(k1) != key_slot(k2),
                forall|x: u64| #[trigger] n0.dom().contains(x) ==> key_slot(x) < 0xffff_ffff,
                self.parent_view() == reparented(p0, child_list@.subrange(0, i as int), moved.0),
                reparented(p0, child_list@.subrange(0, i as int), moved.0).dom() == p0.dom().union(ids_set(child_list@.subrange(0, i as int))),
            decreases child_list@.len() - i,
        {
            let c = child_list[i];
            let ghost pre = child_list@.subrange(0, i as int);
            let ghost cur = child_list@.subrange(0, i + 1);
            assert(cur.drop_last() =~= pre);
            assert(forall|x: u64| #[trigger] ids_set(pre).contains(x) ==> n0.dom().contains(x));
            parents_insert(&mut self.parent, c, moved);
            proof {
                assert forall|x: u64| ids_set(cur).contains(x) == ids_set(pre).insert(c.0).contains(x) by {
                    if ids_set(pre).contains(x) {
                        let j = choose|j: int| 0 <= j < pre.len() && pre[j].0 == x;
                        assert(cur[j] == pre[j]);
                    }
                    if ids_set(cur).contains(x) {
                        let j = choose|j: int| 0 <= j < cur.len() && cur[j].0 == x;
                        if j < i {
                            assert(pre[j] == cur[j]);
                        }
                    }
                    if x == c.0 {
                        assert(cur[i as int].0 == x);
                    }
                }
                assert(ids_set(cur) =~= ids_set(pre).insert(c.0));
            }
            i = i + 1;
            assert(self.parent_view() == reparented(p0, cur, moved.0));
        }
        assert(child_list@.subrange(0, i as int) =~= child_list@);
        proof {
            lemma_reparented(p0, child_list@, moved.0);
            let pm = p0.map_values(|v: u64| if v == at_leaf.0 { moved.0 } else { v });
            assert forall|x: u64| #[trigger] p0.dom().contains(x) implies (p0[x] == at_leaf.0) == ids_set(child_list@).contains(x) by {
                reveal(parents_ok);
                reveal(children_ok);
                if p0[x] == at_leaf.0 {
                    let cs = children_of(n0[at_leaf.0]);
                    assert(cs.contains(NodeId(x)));
                    let j = choose|j: int| 0 <= j < cs.len() && cs[j] == NodeId(x);
                    assert(child_list@[j].0 == x);
                }
                if ids_set(child_list@).contains(x) {
                    let j = choose|j: int| 0 <= j < child_list@.len() && child_list@[j].0 == x;
                    assert(children_of(n0[at_leaf.0])[j].0 == x);
                }
            }
            assert forall|x: u64| ids_set(child_list@).contains(x) implies #[trigger] p0.dom().contains(x) by {
                reveal(children_ok);
                let j = choose|j: int| 0 <= j < child_list@.len() && child_list@[j].0 == x;
                assert(children_of(n0[at_leaf.0])[j].0 == x);
            }
            assert(self.parent_view() =~= pm);
        }
        assert(forall|x: u64| #[trigger] self.parent_view().dom().contains(x) ==> n0.dom().contains(x));
        proof {
            assert forall|x: u64| #[trigger] self.parent_view().dom().contains(x) && x != moved.0 implies key_slot(x) != key_slot(moved.0) by {
                assert(n0.dom().insert(new_leaf.0).contains(x));
            }
        }
        parents_insert(&mut self.parent, moved, at_leaf);
        proof {
            assert(n0.dom().insert(new_leaf.0).contains(new_leaf.0));
            assert forall|x: u64| #[trigger] self.parent_view().dom().contains(x) && x != new_leaf.0 implies key_slot(x) != key_slot(new_leaf.0) by {
                if x != moved.0 {
                    assert(n0.dom().contains(x));
                }
            }
        }
        parents_insert(&mut self.parent, new_leaf, at_leaf);
        let mut ti: usize = 0;
        assert(self.tabs@ == t0);
        assert(self.parent_view() =~= promoted_parents(p0, at_leaf.0, moved.0, new_leaf.0));
        while ti < self.tabs.len()
            invariant
                0 <= ti <= self.tabs@.len(),
                self.tabs@.len() == t0.len(),
                forall|j: int| 0 <= j < ti ==> #[trigger] self.tabs@[j] == if t0[j].active_leaf.0 == at_leaf.0 {
                    Tab { active_leaf: moved, ..t0[j] }
                } else {
                    t0[j]
                },
                forall|j: int| ti <= j < t0.len() ==> #[trigger] self.tabs@[j] == t0[j],
                self.node_view() == n2,
                self.parent_view() == promoted_parents(p0, at_leaf.0, moved.0, new_leaf.0),
                self.active_tab == a0,
                self.rank@ == r0,
                self.bound@ == b0,
            decreases t0.len() - ti,
        {
            if self.tabs[ti].active_leaf == at_leaf {
                let root = self.tabs[ti].root;
                self.tabs.set(ti, Tab { root, active_leaf: moved });
            }
            ti = ti + 1;
        }
        proof {
            self.rank@ = promoted_ranks(r0, at_leaf.0, moved.0, new_leaf.0);
            self.bound@ = 2 * b0 + 1;
            assert(self.node_view().dom() =~= n0.dom().insert(new_leaf.0).insert(moved.0));
            lemma_split_promote(
                n0,
                p0,
                r0,
                b0,
                t0,
                a0,
                at_leaf.0,
                moved.0,
                new_leaf.0,
                s,
                dir,
                self.node_view(),
                self.tab_view(),
            );
        }
        moved
    }

    /// Split the pane `at_leaf` in direction `dir`, placing a new pane for
    /// `new_session` right after it, and focus the new pane. When the
    /// pane's parent is a split in the same direction, the new pane joins
    /// its children; otherwise the pane becomes a split of its former
    /// content and the new pane.
    pub fn split(&mut self, at_leaf: NodeId, dir: SplitDir, new_session: SessionId) -> (r: SplitOutcome)
        requires
            old(self).wf(),
            valid_id(at_leaf),
            old(self).node_view().dom().contains(at_leaf.0),
            old(self).node_view().dom().len() < 0xffff_ff00,
        ensures
            final(self).wf(),
            final(self).active_tab_view() == old(self).active_tab_view(),
            split_spec(
                old(self).node_view(),
                old(self).parent_view(),
                old(self).tab_view(),
                old(self).top_of(at_leaf.0),
                at_leaf.0,
                dir,
                new_session,
                final(self).node_view(),
                final(self).parent_view(),
                final(self).tab_view(),
                r,
            ),
    {
        let ghost n0 = self.node_view();
        let ghost p0 = self.parent_view();
        let ghost t0 = self.tab_view();
        let ghost top_at = self.top_of(at_leaf.0);
        assert(n0.dom().finite() && n0.dom().len() < 0xffff_fff0) by {
            reveal(nodes_ok);
        }
        let new_leaf = arena_insert(&mut self.nodes, PaneNode::Leaf { session: new_session });
        let parent_id = parents_get(&self.parent, at_leaf);
        let same = match parent_id {
            Some(pid) => match arena_get(&self.nodes, pid) {
                Some(PaneNode::Split { dir: d, .. }) => *d == dir,
                _ => false,
            },
            None => false,
        };
        proof {
            if p0.contains_key(at_leaf.0) {
                lemma_parent_rank_parts(n0, p0, self.rank_view(), self.bound_view(), t0, self.active_tab_view(), at_leaf.0);
                assert(key_canon(p0[at_leaf.0]) == p0[at_leaf.0]) by {
                    reveal(nodes_ok);
                }
                assert(p0[at_leaf.0] != new_leaf.0);
            }
            assert(same == split_appends(n0, p0, at_leaf.0, dir));
        }
        let ghost mid_tabs;
        let outcome = if same {
            let pid = parent_id.unwrap();
            assert(valid_id(pid) && pid.0 != new_leaf.0) by {
                lemma_parent_rank_parts(n0, p0, self.rank_view(), self.bound_view(), t0, self.active_tab_view(), at_leaf.0);
                reveal(nodes_ok);
            }
            let idx = self.attach_sibling(at_leaf, pid, new_leaf, dir, Ghost(n0), Ghost(new_session));
            proof {
                mid_tabs = t0;
            }
            SplitOutcome { new_leaf, split: pid, index: idx, moved: None }
        } else {
            let moved = self.promote(at_leaf, new_leaf, dir, Ghost(n0), Ghost(new_session));
            proof {
                mid_tabs = self.tab_view();
            }
            SplitOutcome { new_leaf, split: at_leaf, index: 1, moved: Some(moved) }
        };
        proof {
            assert(self.node_view().dom().contains(new_leaf.0));
            lemma_top_is_root(
                self.node_view(),
                self.parent_view(),
                self.rank_view(),
                self.bound_view(),
                self.tab_view(),
                self.active_tab_view(),
                new_leaf.0,
            );
        }
        let found = self.tab_of(new_leaf);
        let ti = match found {
            Some(ti) => ti,
            None => {
                return outcome;
            },
        };
        let ghost mid_ws = *self;
        let root = self.tabs[ti].root;
        self.tabs.set(ti, Tab { root, active_leaf: new_leaf });
        proof {
            assert(mid_ws.node_view()[new_leaf.0] is Leaf);
            Workspace::lemma_refocus(&mid_ws, self, ti as int, new_leaf);
            assert(mid_tabs.len() == t0.len());
            assert forall|j: int| 0 <= j < t0.len() implies #[trigger] mid_tabs[j].root == t0[j].root by {}
            assert(mid_ws.top_of(new_leaf.0) == top_at);
            assert(mid_tabs == mid_ws.tab_view());
            assert(tab_with_root(mid_tabs, top_at, ti as int));
            assert forall|j: int| 0 <= j < ti implies (#[trigger] t0[j]).root.0 != top_at by {
                assert(mid_tabs[j].root == t0[j].root);
            }
            assert(t0[ti as int].root.0 == top_at) by {
                assert(mid_tabs[ti as int].root == t0[ti as int].root);
            }
            assert(tab_with_root(t0, top_at, ti as int));
            assert forall|j: int| 0 <= j < t0.len() && j != ti implies #[trigger] mid_tabs[j] == t0[j] by {
                reveal(tabs_ok);
                if t0[j].active_leaf.0 == at_leaf.0 {
                    assert(t0[j].root.0 == top_at);
                }
            }
            assert(self.tab_view() =~= t0.update(ti as int, Tab { active_leaf: new_leaf, ..t0[ti as int] }));
            assert(!n0.dom().contains(outcome.new_leaf.0));
            assert(self.node_view()[outcome.new_leaf.0] == (PaneNode::Leaf { session: new_session }));
            assert(exists|tj: int| tab_with_root(t0, top_at, tj) && self.tab_view() == t0.update(tj, Tab { active_leaf: outcome.new_leaf, ..t0[tj] }));
        }
        outcome
    }
}

/// The active tab after the tab at `removed` closed, `len_after` tabs
/// remaining: the same tab keeps focus; when the active tab itself closed,
/// the one before it takes over (the new first one when it was first).
pub open spec fn retarget_spec(active: nat, removed: nat, len_after: nat) -> nat {
    if len_after == 0 {
        0
    } else {
        let a1 = if removed < active {
            (active - 1) as nat
        } else if removed == active {
            if removed > 0 {
                (removed - 1) as nat
            } else {
                0
            }
        } else {
            active
        };
        if a1 < len_after {
            a1
        } else {
            (len_after - 1) as nat
        }
    }
}

/// Closing the tab of a root leaf keeps the invariant.
pub proof fn lemma_close_tab(
    n: Map<u64, PaneNode>,
    p: Map<u64, u64>,
    r: Map<u64, nat>,
    b: nat,
    t: Seq<Tab>,
    a: nat,
    idx: int,
)
    requires
        wf_parts(n, p, r, b, t, a),
        0 <= idx < t.len(),
        n[t[idx].root.0] is Leaf,
    ensures
        wf_parts(n.remove(t[idx].root.0), p, r, b, t.remove(idx), retarget_spec(a, idx as nat, (t.len() - 1) as nat)),
{
    let leaf = t[idx].root.0;
    let n2 = n.remove(leaf);
    let t2 = t.remove(idx);
    assert(n.dom().contains(leaf) && !p.dom().contains(leaf)) by {
        reveal(tabs_ok);
    }
    assert(forall|x: u64| #[trigger] p.dom().contains(x) ==> p[x] != leaf && x != leaf) by {
        reveal(parents_ok);
    }
    assert(nodes_ok(n2, r, b)) by {
        reveal(nodes_ok);
    }
    assert(parents_ok(n2, p)) by {
        reveal(parents_ok);
    }
    assert(children_ok(n2, p, r)) by {
        reveal(children_ok);
        assert forall|k: u64, i: int|
            #![trigger n2[k], children_of(n2[k])[i]]
            n2.dom().contains(k) && n2[k] is Split && 0 <= i < children_of(n2[k]).len() implies {
                let c = children_of(n2[k])[i].0;
                &&& n2.dom().contains(c)
                &&& p.dom().contains(c)
                &&& p[c] == k
                &&& r[c] < r[k]
            } by {
            assert(n2[k] == n[k]);
            assert(children_of(n[k])[i] == children_of(n2[k])[i]);
        }
    }
    assert(roots_ok(n2, p, t2)) by {
        reveal(roots_ok);
        assert forall|k: u64| #[trigger] n2.dom().contains(k) && !p.dom().contains(k) implies exists|i: int|
            0 <= i < t2.len() && (#[trigger] t2[i]).root.0 == k by {
            let i = choose|i: int| 0 <= i < t.len() && (#[trigger] t[i]).root.0 == k;
            assert(i != idx);
            if i < idx {
                assert(t2[i] == t[i]);
            } else {
                assert(t2[i - 1] == t[i]);
            }
        }
    }
    assert(tabs_ok(n2, p, r, b, t2)) by {
        reveal(tabs_ok);
        assert forall|i: int| 0 <= i < t2.len() implies {
            let tab = #[trigger] t2[i];
            &&& n2.dom().contains(tab.root.0)
            &&& !p.dom().contains(tab.root.0)
            &&& n2.dom().contains(tab.active_leaf.0)
            &&& n2[tab.active_leaf.0] is Leaf
            &&& top(p, r, b, tab.active_leaf.0) == tab.root.0
        } by {
            let j = if i < idx { i } else { i + 1 };
            assert(t2[i] == t[j]);
            assert(t[j].root != t[idx].root);
            if t[j].active_leaf.0 == leaf {
                assert(top(p, r, b, leaf) == leaf);
            }
        }
        assert forall|i: int, j: int|
            0 <= i < t2.len() && 0 <= j < t2.len() && i != j implies (#[trigger] t2[i]).root != (
            #[trigger] t2[j]).root by {
            let ii = if i < idx { i } else { i + 1 };
            let jj = if j < idx { j } else { j + 1 };
            assert(t2[i] == t[ii] && t2[j] == t[jj]);
        }
    }
}

impl Workspace {
    /// Keep focus on the same tab after the one at `removed_idx` closed
    /// (see [`retarget_spec`]).
    fn retarget_active_tab(&mut self, removed_idx: usize)
        ensures
            final(self).active_tab_view() == retarget_spec(old(self).active_tab_view(), removed_idx as nat, old(self).tab_view().len()),
            final(self).tab_view() == old(self).tab_view(),
            final(self).node_view() == old(self).node_view(),
            final(self).parent_view() == old(self).parent_view(),
            final(self).rank_view() == old(self).rank_view(),
            final(self).bound_view() == old(self).bound_view(),
    {
        if self.tabs.len() == 0 {
            self.active_tab = 0;
            return;
        }
        if removed_idx < self.active_tab {
            self.active_tab = self.active_tab - 1;
        } else if removed_idx == self.active_tab {
            self.active_tab = if removed_idx > 0 {
                removed_idx - 1
            } else {
                0
            };
        }
        if self.active_tab >= self.tabs.len() {
            self.active_tab = self.tabs.len() - 1;
        }
    }
}

/// A pane's parent links after it was removed from its parent `pid` and
/// the parent's last other child `child` merged into it.
pub open spec fn merged_parents(p: Map<u64, u64>, leaf: u64, child: u64, pid: u64) -> Map<u64, u64> {
    p.remove(leaf).remove(child).map_values(|v: u64| if v == child { pid } else { v })
}

/// The sibling that takes focus when the child at `idx` is removed: the
/// previous one, or the next one when it was the first.
pub open spec fn detach_focus(cs: Seq<NodeId>, idx: int) -> NodeId {
    if idx == 0 {
        cs[1]
    } else {
        cs[idx - 1]
    }
}

/// Facts about a non-root leaf: its parent lists it once.
pub proof fn lemma_leaf_in_parent(
    n: Map<u64, PaneNode>,
    p: Map<u64, u64>,
    r: Map<u64, nat>,
    b: nat,
    t: Seq<Tab>,
    a: nat,
    leaf: u64,
)
    requires
        wf_parts(n, p, r, b, t, a),
        p.contains_key(leaf),
    ensures
        n.dom().contains(p[leaf]),
        n[p[leaf]] is Split,
        0 <= first_pos(children_of(n[p[leaf]]), NodeId(leaf)) < children_of(n[p[leaf]]).len(),
        children_of(n[p[leaf]])[first_pos(children_of(n[p[leaf]]), NodeId(leaf))] == NodeId(leaf),
        children_of(n[p[leaf]]).len() >= 2,
        children_of(n[p[leaf]]).no_duplicates(),
{
    reveal(parents_ok);
    reveal(children_ok);
    let cs = children_of(n[p[leaf]]);
    lemma_first_pos(cs, NodeId(leaf));
    let j = choose|j: int| 0 <= j < cs.len() && cs[j] == NodeId(leaf);
}

/// The parts after removing a non-root leaf whose parent keeps at least
/// two children.
pub proof fn lemma_detach_keep(
    n: Map<u64, PaneNode>,
    p: Map<u64, u64>,
    r: Map<u64, nat>,
    b: nat,
    t: Seq<Tab>,
    a: nat,
    leaf: u64,
    n2: Map<u64, PaneNode>,
)
    requires
        wf_parts(n, p, r, b, t, a),
        n.dom().contains(leaf),
        n[leaf] is Leaf,
        p.contains_key(leaf),
        children_of(n[p[leaf]]).len() > 2,
        n2.dom() == n.dom().remove(leaf),
        n2[p[leaf]] is Split,
        children_of(n2[p[leaf]]) == children_of(n[p[leaf]]).remove(first_pos(children_of(n[p[leaf]]), NodeId(leaf))),
        forall|x: u64| #[trigger] n2.dom().contains(x) && x != p[leaf] ==> n2[x] == n[x],
    ensures
        nodes_ok(n2, r, b),
        parents_ok(n2, p.remove(leaf)),
        children_ok(n2, p.remove(leaf), r),
        roots_ok(n2, p.remove(leaf), t),
        forall|x: u64| #[trigger] n2.dom().contains(x) ==> top(p.remove(leaf), r, b, x) == top(p, r, b, x),
        forall|i: int| 0 <= i < t.len() && t[i].active_leaf.0 != leaf ==> {
            let tab = #[trigger] t[i];
            &&& n2.dom().contains(tab.root.0)
            &&& !p.remove(leaf).dom().contains(tab.root.0)
            &&& n2.dom().contains(tab.active_leaf.0)
            &&& n2[tab.active_leaf.0] is Leaf
            &&& top(p.remove(leaf), r, b, tab.active_leaf.0) == tab.root.0
        },
        forall|i: int| 0 <= i < t.len() ==> n2.dom().contains((#[trigger] t[i]).root.0) && !p.remove(leaf).dom().contains(t[i].root.0),
{
    let pid = p[leaf];
    let p2 = p.remove(leaf);
    let cs = children_of(n[pid]);
    lemma_leaf_in_parent(n, p, r, b, t, a, leaf);
    let idx = first_pos(cs, NodeId(leaf));
    let cs2 = cs.remove(idx);
    assert(forall|x: u64| #[trigger] p.dom().contains(x) ==> p[x] != leaf && n.dom().contains(x) && n.dom().contains(p[x])) by {
        reveal(parents_ok);
    }
    assert(forall|j: int| 0 <= j < cs2.len() ==> #[trigger] cs2[j] != NodeId(leaf)) by {
        assert forall|j: int| 0 <= j < cs2.len() implies #[trigger] cs2[j] != NodeId(leaf) by {
            if j < idx {
                assert(cs2[j] == cs[j]);
            } else {
                assert(cs2[j] == cs[j + 1]);
            }
        }
    }
    assert(nodes_ok(n2, r, b)) by {
        reveal(nodes_ok);
    }
    assert(parents_ok(n2, p2)) by {
        reveal(parents_ok);
        assert forall|k: u64| #[trigger] p2.dom().contains(k) implies n2.dom().contains(k) && n2.dom().contains(p2[k])
            && n2[p2[k]] is Split && children_of(n2[p2[k]]).contains(NodeId(k)) by {
            let q = p[k];
            if q == pid {
                let j = choose|j: int| 0 <= j < cs.len() && cs[j] == NodeId(k);
                assert(j != idx);
                if j < idx {
                    assert(cs2[j] == NodeId(k));
                } else {
                    assert(cs2[j - 1] == NodeId(k));
                }
            } else {
                assert(n2[q] == n[q]);
            }
        }
    }
    assert(children_ok(n2, p2, r)) by {
        reveal(children_ok);
        assert forall|k: u64| #[trigger] n2.dom().contains(k) && n2[k] is Split implies children_of(n2[k]).len() >= 2
            && children_of(n2[k]).no_duplicates() by {
            if k == pid {
                assert forall|i: int, j: int| 0 <= i < cs2.len() && 0 <= j < cs2.len() && i != j implies cs2[i] != cs2[j] by {
                    let ii = if i < idx { i } else { i + 1 };
                    let jj = if j < idx { j } else { j + 1 };
                    assert(cs2[i] == cs[ii] && cs2[j] == cs[jj]);
                }
            } else {
                assert(n2[k] == n[k]);
            }
        }
        assert forall|k: u64, i: int|
            #![trigger n2[k], children_of(n2[k])[i]]
            n2.dom().contains(k) && n2[k] is Split && 0 <= i < children_of(n2[k]).len() implies {
                let c = children_of(n2[k])[i].0;
                &&& n2.dom().contains(c)
                &&& p2.dom().contains(c)
                &&& p2[c] == k
                &&& r[c] < r[k]
            } by {
            if k == pid {
                let ii = if i < idx { i } else { i + 1 };
                assert(cs2[i] == cs[ii]);
                assert(children_of(n[pid])[ii] == cs[ii]);
            } else {
                assert(n2[k] == n[k]);
                assert(children_of(n[k])[i] == children_of(n2[k])[i]);
                assert(children_of(n[k])[i].0 != leaf);
            }
        }
    }
    assert(roots_ok(n2, p2, t)) by {
        reveal(roots_ok);
    }
    assert(forall|y: u64| #[trigger] n.dom().contains(y) ==> r[y] < b) by {
        reveal(nodes_ok);
    }
    assert forall|x: u64| #[trigger] n2.dom().contains(x) implies top(p2, r, b, x) == top(p, r, b, x) by {
        lemma_top_monotone(p, r, b, p2, r, b, n2.dom(), x);
    }
    assert forall|i: int| 0 <= i < t.len() implies n2.dom().contains((#[trigger] t[i]).root.0) && !p2.dom().contains(t[i].root.0) by {
        reveal(tabs_ok);
    }
    assert forall|i: int| 0 <= i < t.len() && t[i].active_leaf.0 != leaf implies {
        let tab = #[trigger] t[i];
        &&& n2.dom().contains(tab.root.0)
        &&& !p2.dom().contains(tab.root.0)
        &&& n2.dom().contains(tab.active_leaf.0)
        &&& n2[tab.active_leaf.0] is Leaf
        &&& top(p2, r, b, tab.active_leaf.0) == tab.root.0
    } by {
        reveal(tabs_ok);
        let al = t[i].active_leaf.0;
        assert(al != pid);
        assert(n2[al] == n[al]);
    }
}

/// Merging `child` into its parent `pid` (and dropping `leaf`) keeps the
/// root above every remaining node.
pub proof fn lemma_top_merge(
    n: Map<u64, PaneNode>,
    p: Map<u64, u64>,
    r: Map<u64, nat>,
    b: nat,
    t: Seq<Tab>,
    a: nat,
    leaf: u64,
    child: u64,
    pid: u64,
    x: u64,
)
    requires
        wf_parts(n, p, r, b, t, a),
        n[leaf] is Leaf,
        p.contains_key(leaf),
        p.contains_key(child),
        p[leaf] == pid,
        p[child] == pid,
        leaf != child,
        n.dom().contains(x),
        x != leaf,
        x != child,
    ensures
        top(merged_parents(p, leaf, child, pid), r, b, x) == top(p, r, b, x),
    decreases b - r[x],
{
    let p2 = merged_parents(p, leaf, child, pid);
    lemma_parent_rank_parts(n, p, r, b, t, a, child);
    if p.contains_key(x) {
        let y = p[x];
        lemma_parent_rank_parts(n, p, r, b, t, a, x);
        assert(y != leaf) by {
            reveal(parents_ok);
        }
        if y == child {
            assert(p2[x] == pid);
            assert(pid != leaf && pid != child);
            lemma_top_merge(n, p, r, b, t, a, leaf, child, pid, pid);
            assert(top(p, r, b, x) == top(p, r, b, child));
            assert(top(p, r, b, child) == top(p, r, b, pid));
        } else {
            assert(p2[x] == y);
            lemma_top_merge(n, p, r, b, t, a, leaf, child, pid, y);
        }
    } else {
        assert(!p2.contains_key(x));
    }
}

/// The parts after removing a non-root leaf whose parent is left with one
/// child `child`, which merges into the parent.
pub proof fn lemma_detach_merge(
    n: Map<u64, PaneNode>,
    p: Map<u64, u64>,
    r: Map<u64, nat>,
    b: nat,
    t: Seq<Tab>,
    a: nat,
    leaf: u64,
    child: u64,
    n2: Map<u64, PaneNode>,
    t2: Seq<Tab>,
)
    requires
        wf_parts(n, p, r, b, t, a),
        n.dom().contains(leaf),
        n[leaf] is Leaf,
        p.contains_key(leaf),
        children_of(n[p[leaf]]).len() == 2,
        children_of(n[p[leaf]]).remove(first_pos(children_of(n[p[leaf]]), NodeId(leaf))) == seq![NodeId(child)],
        n2.dom() == n.dom().remove(leaf).remove(child),
        same_pane(n2[p[leaf]], n[child]),
        forall|x: u64| #[trigger] n2.dom().contains(x) && x != p[leaf] ==> n2[x] == n[x],
        t2.len() == t.len(),
        forall|i: int| 0 <= i < t.len() ==> #[trigger] t2[i] == if t[i].active_leaf.0 == child {
            Tab { active_leaf: NodeId(p[leaf]), ..t[i] }
        } else {
            t[i]
        },
    ensures
        nodes_ok(n2, r, b),
        parents_ok(n2, merged_parents(p, leaf, child, p[leaf])),
        children_ok(n2, merged_parents(p, leaf, child, p[leaf]), r),
        roots_ok(n2, merged_parents(p, leaf, child, p[leaf]), t2),
        forall|x: u64| #[trigger] n2.dom().contains(x) ==> top(merged_parents(p, leaf, child, p[leaf]), r, b, x) == top(p, r, b, x),
        forall|i: int| 0 <= i < t2.len() && t2[i].active_leaf.0 != leaf ==> {
            let tab = #[trigger] t2[i];
            &&& n2.dom().contains(tab.root.0)
            &&& !merged_parents(p, leaf, child, p[leaf]).dom().contains(tab.root.0)
            &&& n2.dom().contains(tab.active_leaf.0)
            &&& n2[tab.active_leaf.0] is Leaf
            &&& top(merged_parents(p, leaf, child, p[leaf]), r, b, tab.active_leaf.0) == tab.root.0
        },
        forall|i: int| 0 <= i < t2.len() ==> n2.dom().contains((#[trigger] t2[i]).root.0)
            && !merged_parents(p, leaf, child, p[leaf]).dom().contains(t2[i].root.0),
        forall|i: int, j: int| 0 <= i < t2.len() && 0 <= j < t2.len() && i != j ==> (#[trigger] t2[i]).root != (#[trigger] t2[j]).root,
{
    let pid = p[leaf];
    let p2 = merged_parents(p, leaf, child, pid);
    let cs = children_of(n[pid]);
    lemma_leaf_in_parent(n, p, r, b, t, a, leaf);
    let idx = first_pos(cs, NodeId(leaf));
    let cidx = if idx == 0 { 1int } else { 0int };
    assert(cs[cidx] == NodeId(child)) by {
        assert(cs.remove(idx)[0] == NodeId(child));
    }
    assert(child != leaf);
    assert(n.dom().contains(child) && p.contains_key(child) && p[child] == pid && r[child] < r[pid]) by {
        reveal(children_ok);
        assert(children_of(n[pid])[cidx].0 == child);
    }
    assert(forall|x: u64| #[trigger] p.dom().contains(x) ==> p[x] != leaf && n.dom().contains(x) && n.dom().contains(p[x])
        && n[p[x]] is Split && children_of(n[p[x]]).contains(NodeId(x))) by {
        reveal(parents_ok);
    }
    assert(forall|x: u64| #[trigger] p.dom().contains(x) && p[x] == pid ==> x == leaf || x == child) by {
        assert forall|x: u64| #[trigger] p.dom().contains(x) && p[x] == pid implies x == leaf || x == child by {
            let j = choose|j: int| 0 <= j < cs.len() && cs[j] == NodeId(x);
            assert(j == idx || j == cidx);
        }
    }
    assert(n.dom().contains(pid) && pid != leaf && pid != child);
    assert(nodes_ok(n2, r, b)) by {
        reveal(nodes_ok);
    }
    assert(parents_ok(n2, p2)) by {
        reveal(parents_ok);
        assert forall|k: u64| #[trigger] p2.dom().contains(k) implies n2.dom().contains(k) && n2.dom().contains(p2[k])
            && n2[p2[k]] is Split && children_of(n2[p2[k]]).contains(NodeId(k)) by {
            let q = p[k];
            if q == child {
                assert(p2[k] == pid);
            } else {
                assert(p2[k] == q);
                assert(q != pid);
                assert(n2[q] == n[q]);
            }
        }
    }
    assert(children_ok(n2, p2, r)) by {
        reveal(children_ok);
        assert forall|k: u64| #[trigger] n2.dom().contains(k) && n2[k] is Split implies children_of(n2[k]).len() >= 2
            && children_of(n2[k]).no_duplicates() by {
            if k != pid {
                assert(n2[k] == n[k]);
            }
        }
        assert forall|k: u64, i: int|
            #![trigger n2[k], children_of(n2[k])[i]]
            n2.dom().contains(k) && n2[k] is Split && 0 <= i < children_of(n2[k]).len() implies {
                let c = children_of(n2[k])[i].0;
                &&& n2.dom().contains(c)
                &&& p2.dom().contains(c)
                &&& p2[c] == k
                &&& r[c] < r[k]
            } by {
            if k == pid {
                let c = children_of(n[child])[i].0;
                assert(children_of(n2[pid])[i].0 == c);
                assert(n.dom().contains(c) && p[c] == child && r[c] < r[child]);
                assert(c != leaf && c != child);
            } else {
                assert(n2[k] == n[k]);
                let c = children_of(n[k])[i].0;
                assert(children_of(n2[k])[i].0 == c);
                assert(p[c] == k);
                assert(c != leaf && c != child);
            }
        }
    }
    assert(roots_ok(n2, p2, t2)) by {
        reveal(roots_ok);
        assert forall|k: u64| #[trigger] n2.dom().contains(k) && !p2.dom().contains(k) implies exists|i: int|
            0 <= i < t2.len() && (#[trigger] t2[i]).root.0 == k by {
            let i = choose|i: int| 0 <= i < t.len() && (#[trigger] t[i]).root.0 == k;
            assert(t2[i].root == t[i].root);
        }
    }
    assert forall|x: u64| #[trigger] n2.dom().contains(x) implies top(p2, r, b, x) == top(p, r, b, x) by {
        lemma_top_merge(n, p, r, b, t, a, leaf, child, pid, x);
    }
    assert forall|i: int| 0 <= i < t2.len() implies n2.dom().contains((#[trigger] t2[i]).root.0) && !p2.dom().contains(t2[i].root.0) by {
        reveal(tabs_ok);
        assert(t2[i].root == t[i].root);
    }
    assert forall|i: int| 0 <= i < t2.len() && t2[i].active_leaf.0 != leaf implies {
        let tab = #[trigger] t2[i];
        &&& n2.dom().contains(tab.root.0)
        &&& !p2.dom().contains(tab.root.0)
        &&& n2.dom().contains(tab.active_leaf.0)
        &&& n2[tab.active_leaf.0] is Leaf
        &&& top(p2, r, b, tab.active_leaf.0) == tab.root.0
    } by {
        reveal(tabs_ok);
        let al = t[i].active_leaf.0;
        if al == child {
            assert(t2[i].active_leaf.0 == pid);
            assert(top(p, r, b, child) == top(p, r, b, pid));
        } else {
            assert(t2[i] == t[i]);
            assert(al != pid);
            assert(n2[al] == n[al]);
        }
    }
    assert forall|i: int, j: int| 0 <= i < t2.len() && 0 <= j < t2.len() && i != j implies (#[trigger] t2[i]).root != (#[trigger] t2[j]).root by {
        reveal(tabs_ok);
        assert(t2[i].root == t[i].root && t2[j].root == t[j].root);
    }
}

/// Every node has at least one leaf under it.
pub proof fn lemma_leaves_nonempty(n: Map<u64, PaneNode>, p: Map<u64, u64>, r: Map<u64, nat>, b: nat, k: u64)
    requires
        nodes_ok(n, r, b),
        children_ok(n, p, r),
        n.dom().contains(k),
    ensures
        leaves_in(n, r, k).len() > 0,
    decreases r[k],
{
    match n[k] {
        PaneNode::Leaf { .. } => {},
        PaneNode::Split { children, .. } => {
            let cs = children@;
            assert(cs.len() >= 2 && n.dom().contains(cs.last().0) && r[cs.last().0] < r[k]) by {
                reveal(children_ok);
                assert(children_of(n[k])[cs.len() - 1] == cs.last());
            }
            lemma_leaves_nonempty(n, p, r, b, cs.last().0);
        },
    }
}

/// The invariant after a leaf was detached from its parent, except that a
/// tab may still be focused on the removed leaf.
pub open spec fn detached_ok(
    n: Map<u64, PaneNode>,
    p: Map<u64, u64>,
    r: Map<u64, nat>,
    b: nat,
    t: Seq<Tab>,
    a: nat,
    leaf: u64,
) -> bool {
    &&& nodes_ok(n, r, b)
    &&& parents_ok(n, p)
    &&& children_ok(n, p, r)
    &&& roots_ok(n, p, t)
    &&& !n.dom().contains(leaf)
    &&& forall|i: int| 0 <= i < t.len() && t[i].active_leaf.0 != leaf ==> {
        let tab = #[trigger] t[i];
        &&& n.dom().contains(tab.active_leaf.0)
        &&& n[tab.active_leaf.0] is Leaf
        &&& top(p, r, b, tab.active_leaf.0) == tab.root.0
    }
    &&& forall|i: int| 0 <= i < t.len() ==> n.dom().contains((#[trigger] t[i]).root.0) && !p.dom().contains(t[i].root.0)
    &&& forall|i: int, j: int| 0 <= i < t.len() && 0 <= j < t.len() && i != j ==> (#[trigger] t[i]).root != (#[trigger] t[j]).root
    &&& (t.len() == 0 && a == 0) || a < t.len()
}

impl Workspace {
    /// Point a tab still focused on the removed `leaf` at the first leaf
    /// under `focus`, a node of the same tree as `pid`.
    fn refocus_after_detach(&mut self, pid: NodeId, focus: NodeId, Ghost(leaf): Ghost<u64>)
        requires
            detached_ok(old(self).node_view(), old(self).parent_view(), old(self).rank_view(), old(self).bound_view(), old(self).tab_view(), old(self).active_tab_view(), leaf),
            valid_id(pid),
            valid_id(focus),
            key_canon(leaf) == leaf,
            old(self).node_view().dom().contains(pid.0),
            old(self).node_view().dom().contains(focus.0),
            old(self).top_of(focus.0) == old(self).top_of(pid.0),
            forall|i: int| 0 <= i < old(self).tab_view().len() && (#[trigger] old(self).tab_view()[i]).active_leaf.0 == leaf ==> old(self).tab_view()[i].root.0 == old(self).top_of(pid.0),
        ensures
            final(self).wf(),
            final(self).node_view() == old(self).node_view(),
            final(self).parent_view() == old(self).parent_view(),
            final(self).rank_view() == old(self).rank_view(),
            final(self).active_tab_view() == old(self).active_tab_view(),
            final(self).tab_view().len() == old(self).tab_view().len(),
            forall|i: int| 0 <= i < old(self).tab_view().len() ==> #[trigger] final(self).tab_view()[i] == if old(self).tab_view()[i].active_leaf.0 == leaf {
                Tab { active_leaf: leaves_in(old(self).node_view(), old(self).rank_view(), focus.0)[0], ..old(self).tab_view()[i] }
            } else {
                old(self).tab_view()[i]
            },
    {
        let ghost t0 = self.tab_view();
        proof {
            lemma_top_is_root(self.node_view(), self.parent_view(), self.rank_view(), self.bound_view(), t0, self.active_tab_view(), pid.0);
        }
        let ti = match self.tab_of(pid) {
            Some(ti) => ti,
            None => {
                return;
            },
        };
        let active = self.tabs[ti].active_leaf;
        let stale = match arena_get(&self.nodes, active) {
            Some(PaneNode::Leaf { .. }) => false,
            _ => true,
        };
        proof {
            reveal(nodes_ok);
            assert(forall|i: int| 0 <= i < t0.len() && t0[i].active_leaf.0 == leaf ==> i == ti);
            if !stale {
                assert(t0[ti as int].active_leaf.0 != leaf);
            }
        }
        if !stale {
            proof {
                assert(tabs_ok(self.node_view(), self.parent_view(), self.rank_view(), self.bound_view(), t0)) by {
                    reveal(tabs_ok);
                    assert forall|i: int| 0 <= i < t0.len() implies t0[i].active_leaf.0 != leaf by {
                        if t0[i].active_leaf.0 == leaf {
                            assert(i == ti);
                        }
                    }
                }
            }
            return;
        }
        let target = match arena_get(&self.nodes, focus) {
            Some(_) => focus,
            None => self.tabs[ti].root,
        };
        let ls = self.leaves_of(target);
        proof {
            lemma_leaves_nonempty(self.node_view(), self.parent_view(), self.rank_view(), self.bound_view(), target.0);
            self.lemma_leaves_in(target.0);
            assert(target == focus);
        }
        let first = ls[0];
        let root = self.tabs[ti].root;
        self.tabs.set(ti, Tab { root, active_leaf: first });
        proof {
            let t = self.tab_view();
            assert(t0[ti as int].active_leaf.0 == leaf);
            assert(tabs_ok(self.node_view(), self.parent_view(), self.rank_view(), self.bound_view(), t)) by {
                reveal(tabs_ok);
                assert forall|i: int| 0 <= i < t.len() implies {
                    let tab = #[trigger] t[i];
                    &&& self.node_view().dom().contains(tab.root.0)
                    &&& !self.parent_view().dom().contains(tab.root.0)
                    &&& self.node_view().dom().contains(tab.active_leaf.0)
                    &&& self.node_view()[tab.active_leaf.0] is Leaf
                    &&& top(self.parent_view(), self.rank_view(), self.bound_view(), tab.active_leaf.0) == tab.root.0
                } by {
                    if i != ti {
                        assert(t[i] == t0[i]);
                        if t0[i].active_leaf.0 == leaf {
                            assert(i == ti);
                        }
                    }
                }
                assert forall|i: int, j: int| 0 <= i < t.len() && 0 <= j < t.len() && i != j implies (#[trigger] t[i]).root != (#[trigger] t[j]).root by {
                    assert(t[i].root == t0[i].root && t[j].root == t0[j].root);
                }
            }
            assert(roots_ok(self.node_view(), self.parent_view(), t)) by {
                reveal(roots_ok);
                assert forall|k: u64| #[trigger] self.node_view().dom().contains(k) && !self.parent_view().dom().contains(k) implies exists|i: int|
                    0 <= i < t.len() && (#[trigger] t[i]).root.0 == k by {
                    let i = choose|i: int| 0 <= i < t0.len() && (#[trigger] t0[i]).root.0 == k;
                    assert(t[i].root == t0[i].root);
                }
            }
        }
    }
}

impl Workspace {
    /// Take the non-root leaf `leaf` out of its parent `pid`; when `pid` is
    /// left with a single child, that child's content moves into `pid`.
    /// Returns the leaf's former position, the sibling to focus, and the
    /// merged child.
    #[verifier::spinoff_prover]
    #[verifier::rlimit(40)]
    fn detach(&mut self, leaf: NodeId, pid: NodeId) -> (res: (usize, NodeId, Option<NodeId>))
        requires
            old(self).wf(),
            valid_id(leaf),
            valid_id(pid),
            old(self).node_view().dom().contains(leaf.0),
            old(self).node_view()[leaf.0] is Leaf,
            old(self).parent_view().contains_key(leaf.0),
            old(self).parent_view()[leaf.0] == pid.0,
        ensures
            ({
                let n = old(self).node_view();
                let p = old(self).parent_view();
                let t = old(self).tab_view();
                let cs = children_of(n[pid.0]);
                let idx = res.0 as int;
                let n2 = final(self).node_view();
                let t2 = final(self).tab_view();
                &&& idx == first_pos(cs, leaf)
                &&& detached_ok(n2, final(self).parent_view(), final(self).rank_view(), final(self).bound_view(), t2, final(self).active_tab_view(), leaf.0)
                &&& final(self).rank_view() == old(self).rank_view()
                &&& final(self).bound_view() == old(self).bound_view()
                &&& final(self).active_tab_view() == old(self).active_tab_view()
                &&& forall|x: u64| #[trigger] n2.dom().contains(x) ==> final(self).top_of(x) == old(self).top_of(x)
                &&& n2.dom().contains(pid.0)
                &&& valid_id(res.1)
                &&& n2.dom().contains(res.1.0)
                &&& final(self).top_of(res.1.0) == final(self).top_of(pid.0)
                &&& forall|i: int| 0 <= i < t2.len() && (#[trigger] t2[i]).active_leaf.0 == leaf.0 ==> t2[i].root.0 == final(self).top_of(pid.0)
                &&& t2.len() == t.len()
                &&& if cs.len() > 2 {
                    &&& res.2 is None
                    &&& res.1 == detach_focus(cs, idx)
                    &&& n2.dom() == n.dom().remove(leaf.0)
                    &&& n2[pid.0] == (PaneNode::Split { dir: n[pid.0]->dir, children: n2[pid.0]->children })
                    &&& children_of(n2[pid.0]) == cs.remove(idx)
                    &&& forall|x: u64| #[trigger] n2.dom().contains(x) && x != pid.0 ==> n2[x] == n[x]
                    &&& final(self).parent_view() == p.remove(leaf.0)
                    &&& t2 == t
                } else {
                    let child = cs.remove(idx)[0];
                    &&& cs.remove(idx) == seq![child]
                    &&& res.2 == Some(child)
                    &&& res.1 == pid
                    &&& n2.dom() == n.dom().remove(leaf.0).remove(child.0)
                    &&& same_pane(n2[pid.0], n[child.0])
                    &&& forall|x: u64| #[trigger] n2.dom().contains(x) && x != pid.0 ==> n2[x] == n[x]
                    &&& final(self).parent_view() == merged_parents(p, leaf.0, child.0, pid.0)
                    &&& forall|i: int| 0 <= i < t.len() ==> #[trigger] t2[i] == if t[i].active_leaf.0 == child.0 {
                        Tab { active_leaf: pid, ..t[i] }
                    } else {
                        t[i]
                    }
                }
            }),
    {
        let ghost n0 = self.node_view();
        let ghost p0 = self.parent_view();
        let ghost r0 = self.rank_view();
        let ghost b0 = self.bound_view();
        let ghost t0 = self.tab_view();
        let ghost a0 = self.active_tab_view();
        proof {
            lemma_leaf_in_parent(n0, p0, r0, b0, t0, a0, leaf.0);
        }
        let (d, cs) = match arena_get(&self.nodes, pid) {
            Some(PaneNode::Split { dir, children }) => (*dir, copy_ids(children)),
            _ => (SplitDir::Horizontal, Vec::new()),
        };
        assert(cs@ == children_of(n0[pid.0]));
        let idx = position_of(&cs, leaf);
        let focus = if idx == 0 {
            cs[1]
        } else {
            cs[idx - 1]
        };
        let mut cs2 = copy_ids(&cs);
        cs2.remove(idx);
        assert(focus == detach_focus(cs@, idx as int));
        assert(n0.dom().contains(focus.0) && valid_id(focus) && self.top_of(focus.0) == self.top_of(pid.0)) by {
            reveal(children_ok);
            reveal(nodes_ok);
            let fi = if idx == 0 { 1int } else { idx - 1 };
            assert(children_of(n0[pid.0])[fi] == focus);
            self.lemma_parent_rank(focus.0);
        }
        if cs2.len() >= 2 {
            arena_set(&mut self.nodes, pid, PaneNode::Split { dir: d, children: cs2 });
            arena_remove(&mut self.nodes, leaf);
            parents_remove(&mut self.parent, leaf);
            proof {
                assert(self.node_view().dom() =~= n0.dom().remove(leaf.0));
                lemma_detach_keep(n0, p0, r0, b0, t0, a0, leaf.0, self.node_view());
                assert(focus.0 != leaf.0) by {
                    lemma_first_pos(cs@, leaf);
                    reveal(children_ok);
                }
                assert(self.tab_view() == t0);
                lemma_parent_rank_parts(n0, p0, r0, b0, t0, a0, leaf.0);
                assert(top(p0, r0, b0, leaf.0) == top(p0, r0, b0, pid.0));
                assert(self.node_view().dom().contains(pid.0));
                assert(self.top_of(pid.0) == top(p0, r0, b0, pid.0));
                assert forall|i: int| 0 <= i < t0.len() && (#[trigger] t0[i]).active_leaf.0 == leaf.0 implies t0[i].root.0 == self.top_of(pid.0) by {
                    reveal(tabs_ok);
                }
                assert(self.top_of(focus.0) == top(p0, r0, b0, focus.0));
                assert(self.parent_view() == p0.remove(leaf.0));
                assert(nodes_ok(self.node_view(), self.rank_view(), self.bound_view()));
                assert(parents_ok(self.node_view(), self.parent_view()));
                assert(children_ok(self.node_view(), self.parent_view(), self.rank_view()));
                assert(roots_ok(self.node_view(), self.parent_view(), self.tab_view()));
                assert(!self.node_view().dom().contains(leaf.0));
                assert((self.tab_view().len() == 0 && self.active_tab_view() == 0) || self.active_tab_view() < self.tab_view().len());
                assert(forall|i: int, j: int| 0 <= i < t0.len() && 0 <= j < t0.len() && i != j ==> (#[trigger] t0[i]).root != (#[trigger] t0[j]).root) by {
                    reveal(tabs_ok);
                }
                assert(detached_ok(self.node_view(), self.parent_view(), self.rank_view(), self.bound_view(), self.tab_view(), self.active_tab_view(), leaf.0));
                assert(cs@.len() > 2);
                assert(children_of(self.node_view()[pid.0]) == cs@.remove(idx as int));
            }
            return (idx, focus, None);
        }
        // One child left: it merges into the parent.
        proof {
            lemma_first_pos(cs@, leaf);
            assert(cs@.len() == 2);
        }
        let child = cs2[0];
        proof {
            assert(cs@.remove(idx as int) =~= seq![child]);
            assert(cs@.remove(idx as int) == cs2@);
            let cidx = if idx == 0 { 1int } else { 0int };
            assert(cs@[cidx] == child);
            reveal(children_ok);
            reveal(nodes_ok);
            assert(children_of(n0[pid.0])[cidx] == child);
            assert(n0.dom().contains(child.0) && valid_id(child) && p0[child.0] == pid.0);
            assert(child != leaf);
            assert(focus == child);
        }
        let payload = match arena_get(&self.nodes, child) {
            Some(PaneNode::Leaf { session }) => PaneNode::Leaf { session: *session },
            Some(PaneNode::Split { dir: cd, children }) => PaneNode::Split { dir: *cd, children: copy_ids(children) },
            None => PaneNode::Leaf { session: SessionId(0) },
        };
        let grand = match &payload {
            PaneNode::Split { children, .. } => copy_ids(children),
            PaneNode::Leaf { .. } => Vec::new(),
        };
        assert(grand@ == children_of(n0[child.0]));
        arena_remove(&mut self.nodes, leaf);
        parents_remove(&mut self.parent, leaf);
        let ghost p1 = self.parent_view();
        assert(p1 == p0.remove(leaf.0));
        assert(forall|x: u64| #[trigger] p0.dom().contains(x) ==> n0.dom().contains(x)) by {
            reveal(parents_ok);
        }
        assert(forall|j: int| 0 <= j < grand@.len() ==> n0.dom().contains(#[trigger] grand@[j].0) && key_canon(grand@[j].0) == grand@[j].0 && p0[grand@[j].0] == child.0) by {
            reveal(children_ok);
            reveal(nodes_ok);
            assert forall|j: int| 0 <= j < grand@.len() implies n0.dom().contains(#[trigger] grand@[j].0) && key_canon(grand@[j].0) == grand@[j].0 && p0[grand@[j].0] == child.0 by {
                assert(children_of(n0[child.0])[j] == grand@[j]);
            }
        }
        assert(forall|k1: u64, k2: u64|
            #[trigger] n0.dom().contains(k1) && #[trigger] n0.dom().contains(k2) && k1 != k2 ==> key_slot(k1) != key_slot(k2)) by {
            reveal(nodes_ok);
        }
        assert(forall|x: u64| #[trigger] n0.dom().contains(x) ==> key_slot(x) < 0xffff_ffff) by {
            reveal(nodes_ok);
        }
        let ghost n1 = self.node_view();
        let mut i: usize = 0;
        assert(grand@.subrange(0, 0) =~= Seq::<NodeId>::empty());
        while i < grand.len()
            invariant
                0 <= i <= grand@.len(),
                self.node_view() == n1,
                self.tabs@ == t0,
                self.active_tab == a0,
                self.rank@ == r0,
                self.bound@ == b0,
                forall|x: u64| #[trigger] p0.dom().contains(x) ==> n0.dom().contains(x),
                forall|j: int| 0 <= j < grand@.len() ==> n0.dom().contains(#[trigger] grand@[j].0) && key_canon(grand@[j].0) == grand@[j].0 && p0[grand@[j].0] == child.0,
                forall|k1: u64, k2: u64|
                    #[trigger] n0.dom().contains(k1) && #[trigger] n0.dom().contains(k2) && k1 != k2 ==> key_slot(k1) != key_slot(k2),
                forall|x: u64| #[trigger] n0.dom().contains(x) ==> key_slot(x) < 0xffff_ffff,
                self.parent_view() == reparented(p1, grand@.subrange(0, i as int), pid.0),
                reparented(p1, grand@.subrange(0, i as int), pid.0).dom() == p1.dom().union(ids_set(grand@.subrange(0, i as int))),
                p1 == p0.remove(leaf.0),
            decreases grand@.len() - i,
        {
            let g = grand[i];
            let ghost pre = grand@.subrange(0, i as int);
            let ghost cur = grand@.subrange(0, i + 1);
            assert(cur.drop_last() =~= pre);
            assert(forall|x: u64| #[trigger] ids_set(pre).contains(x) ==> n0.dom().contains(x));
            parents_insert(&mut self.parent, g, pid);
            proof {
                assert forall|x: u64| ids_set(cur).contains(x) == ids_set(pre).insert(g.0).contains(x) by {
                    if ids_set(pre).contains(x) {
                        let j = choose|j: int| 0 <= j < pre.len() && pre[j].0 == x;
                        assert(cur[j] == pre[j]);
                    }
                    if ids_set(cur).contains(x) {
                        let j = choose|j: int| 0 <= j < cur.len() && cur[j].0 == x;
                        if j < i {
                            assert(pre[j] == cur[j]);
                        }
                    }
                    if x == g.0 {
                        assert(cur[i as int].0 == x);
                    }
                }
                assert(ids_set(cur) =~= ids_set(pre).insert(g.0));
            }
            i = i + 1;
            assert(self.parent_view() == reparented(p1, cur, pid.0));
        }
        assert(grand@.subrange(0, i as int) =~= grand@);
        arena_set(&mut self.nodes, pid, payload);
        arena_remove(&mut self.nodes, child);
        parents_remove(&mut self.parent, child);
        proof {
            lemma_reparented(p1, grand@, pid.0);
            let mp = merged_parents(p0, leaf.0, child.0, pid.0);
            assert forall|x: u64| #[trigger] p0.dom().contains(x) && x != leaf.0 && x != child.0 implies (p0[x] == child.0) == ids_set(grand@).contains(x) by {
                reveal(parents_ok);
                reveal(children_ok);
                if p0[x] == child.0 {
                    let gs = children_of(n0[child.0]);
                    assert(gs.contains(NodeId(x)));
                    let j = choose|j: int| 0 <= j < gs.len() && gs[j] == NodeId(x);
                    assert(grand@[j].0 == x);
                }
                if ids_set(grand@).contains(x) {
                    let j = choose|j: int| 0 <= j < grand@.len() && grand@[j].0 == x;
                    assert(p0[grand@[j].0] == child.0);
                }
            }
            assert forall|x: u64| ids_set(grand@).contains(x) implies #[trigger] p0.dom().contains(x) && x != leaf.0 && x != child.0 by {
                let j = choose|j: int| 0 <= j < grand@.len() && grand@[j].0 == x;
                assert(p0[x] == child.0);
                assert(p0[leaf.0] == pid.0);
                assert(p0[child.0] == pid.0);
                lemma_parent_rank_parts(n0, p0, r0, b0, t0, a0, child.0);
                assert(pid.0 != child.0);
            }
            assert(self.parent_view() =~= mp);
        }
        let mut ti: usize = 0;
        let ghost n2 = self.node_view();
        assert(self.tabs@ == t0);
        while ti < self.tabs.len()
            invariant
                0 <= ti <= self.tabs@.len(),
                self.tabs@.len() == t0.len(),
                forall|j: int| 0 <= j < ti ==> #[trigger] self.tabs@[j] == if t0[j].active_leaf.0 == child.0 {
                    Tab { active_leaf: pid, ..t0[j] }
                } else {
                    t0[j]
                },
                forall|j: int| ti <= j < t0.len() ==> #[trigger] self.tabs@[j] == t0[j],
                self.node_view() == n2,
                self.parent_view() == merged_parents(p0, leaf.0, child.0, pid.0),
                self.active_tab == a0,
                self.rank@ == r0,
                self.bound@ == b0,
            decreases t0.len() - ti,
        {
            if self.tabs[ti].active_leaf == child {
                let root = self.tabs[ti].root;
                self.tabs.set(ti, Tab { root, active_leaf: pid });
            }
            ti = ti + 1;
        }
        proof {
            assert(self.node_view().dom() =~= n0.dom().remove(leaf.0).remove(child.0));
            lemma_detach_merge(n0, p0, r0, b0, t0, a0, leaf.0, child.0, self.node_view(), self.tab_view());
            lemma_parent_rank_parts(n0, p0, r0, b0, t0, a0, leaf.0);
            assert(self.top_of(pid.0) == top(p0, r0, b0, pid.0));
            assert forall|i: int| 0 <= i < self.tab_view().len() && (#[trigger] self.tab_view()[i]).active_leaf.0 == leaf.0 implies self.tab_view()[i].root.0 == self.top_of(pid.0) by {
                reveal(tabs_ok);
                assert(self.tab_view()[i].root == t0[i].root);
                assert(t0[i].active_leaf.0 == leaf.0);
            }
        }
        (idx, pid, Some(child))
    }
}

/// What a removal did, so that the caller can keep its pane sizes in step.
#[derive(Debug, Clone, Copy, PartialEq, Eq)]
pub struct RemoveOutcome {
    /// The whole tab was closed (the pane was its root), or the pane was
    /// not a pane of any tab.
    pub tab_closed: bool,
    /// The split the pane was taken out of, and its former position there.
    pub removed_from: Option<(NodeId, usize)>,
    /// When that split was left with a single child: the child whose
    /// content moved into the split.
    pub merged: Option<NodeId>,
}

/// The first tab whose root is `root`, if any.
pub open spec fn tab_index(t: Seq<Tab>, root: u64) -> Option<int> {
    if exists|i: int| tab_with_root(t, root, i) {
        Some(choose|i: int| tab_with_root(t, root, i))
    } else {
        None
    }
}

/// What [`Workspace::remove`] does to the nodes, the parent links, the tabs
/// and the active tab.
pub open spec fn remove_spec(
    n0: Map<u64, PaneNode>,
    p0: Map<u64, u64>,
    t0: Seq<Tab>,
    a0: nat,
    leaf: NodeId,
    n2: Map<u64, PaneNode>,
    p2: Map<u64, u64>,
    r2: Map<u64, nat>,
    t2: Seq<Tab>,
    a2: nat,
    r: RemoveOutcome,
) -> bool {
    let n = n0;
    let p = p0;
    let t = t0;
    if !p.contains_key(leaf.0) {
        &&& r.tab_closed
        &&& r.removed_from is None
        &&& r.merged is None
        &&& p2 == p
        &&& match tab_index(t, leaf.0) {
            Some(idx) => {
                &&& n2 == n.remove(leaf.0)
                &&& t2 == t.remove(idx)
                &&& a2 == retarget_spec(a0, idx as nat, (t.len() - 1) as nat)
            },
            None => {
                &&& n2 == n
                &&& t2 == t
                &&& a2 == a0
            },
        }
    } else {
        let pid = p[leaf.0];
        let cs = children_of(n[pid]);
        let idx = first_pos(cs, leaf);
        let focus = if cs.len() > 2 { detach_focus(cs, idx) } else { NodeId(pid) };
        let moved_to = |x: NodeId| if r.merged == Some(x) { NodeId(pid) } else { x };
        &&& !r.tab_closed
        &&& r.removed_from == Some((NodeId(pid), idx as usize))
        &&& a2 == a0
        &&& t2.len() == t.len()
        &&& if cs.len() > 2 {
            &&& r.merged is None
            &&& n2.dom() == n.dom().remove(leaf.0)
            &&& n2[pid] == (PaneNode::Split { dir: n[pid]->dir, children: n2[pid]->children })
            &&& children_of(n2[pid]) == cs.remove(idx)
            &&& forall|x: u64| #[trigger] n2.dom().contains(x) && x != pid ==> n2[x] == n[x]
            &&& p2 == p.remove(leaf.0)
        } else {
            let child = cs.remove(idx)[0];
            &&& r.merged == Some(child)
            &&& n2.dom() == n.dom().remove(leaf.0).remove(child.0)
            &&& same_pane(n2[pid], n[child.0])
            &&& forall|x: u64| #[trigger] n2.dom().contains(x) && x != pid ==> n2[x] == n[x]
            &&& p2 == merged_parents(p, leaf.0, child.0, pid)
        }
        &&& forall|i: int| 0 <= i < t.len() ==> #[trigger] t2[i] == if t[i].active_leaf == leaf {
            Tab { active_leaf: leaves_in(n2, r2, focus.0)[0], ..t[i] }
        } else {
            Tab { active_leaf: moved_to(t[i].active_leaf), ..t[i] }
        }
    }
}

impl Workspace {
    /// Remove the pane `leaf` and return what changed. A tab's last pane
    /// closes the tab (the active tab stays the same one when another tab
    /// closes; see [`retarget_spec`]). Otherwise the pane leaves its parent
    /// split, which merges with its last child when one is left; a tab that
    /// was focused on the pane focuses its previous sibling (the next one
    /// when it was first), descending to that subtree's first leaf, and
    /// every other focus stays where it was.
    pub fn remove(&mut self, leaf: NodeId) -> (r: RemoveOutcome)
        requires
old(self).wf(),
valid_id(leaf),
old(self).node_view().dom().contains(leaf.0) ==> old(self).node_view()[leaf.0] is Leaf,
        ensures
final(self).wf(),
remove_spec(
    old(self).node_view(),
    old(self).parent_view(),
    old(self).tab_view(),
    old(self).active_tab_view(),
    leaf,
    final(self).node_view(),
    final(self).parent_view(),
    final(self).rank_view(),
    final(self).tab_view(),
    final(self).active_tab_view(),
    r,
),
old(self).parent_view().contains_key(leaf.0) ==> final(self).rank_view() == old(self).rank_view(),
    {
        let ghost n0 = self.node_view();
        let ghost p0 = self.parent_view();
        let ghost t0 = self.tab_view();
        match parents_get(&self.parent, leaf) {
None => {
    let mut i: usize = 0;
    while i < self.tabs.len()
        invariant
            0 <= i <= self.tabs@.len(),
            forall|j: int| 0 <= j < i ==> (#[trigger] self.tabs@[j]).root.0 != leaf.0,
        ensures
            0 <= i <= self.tabs@.len(),
            forall|j: int| 0 <= j < i ==> (#[trigger] self.tabs@[j]).root.0 != leaf.0,
            i < self.tabs@.len() ==> self.tabs@[i as int].root.0 == leaf.0,
        decreases self.tabs@.len() - i,
    {
        if self.tabs[i].root == leaf {
            break;
        }
        i = i + 1;
    }
    if i < self.tabs.len() {
        let ghost r0 = self.rank_view();
        let ghost b0 = self.bound_view();
        let ghost a0 = self.active_tab_view();
        proof {
            assert(tab_with_root(t0, leaf.0, i as int));
            assert(tab_index(t0, leaf.0) == Some(i as int)) by {
                let k = choose|k: int| tab_with_root(t0, leaf.0, k);
                if k < i {
                    assert(t0[k].root.0 != leaf.0);
                }
                if k > i {
                    assert(t0[i as int].root.0 != leaf.0);
                }
            }
            reveal(tabs_ok);
            assert(n0.dom().contains(leaf.0));
            lemma_close_tab(n0, p0, r0, b0, t0, a0, i as int);
        }
        arena_remove(&mut self.nodes, leaf);
        self.tabs.remove(i);
        self.retarget_active_tab(i);
    } else {
        proof {
            assert forall|k: int| !tab_with_root(t0, leaf.0, k) by {
                if 0 <= k < t0.len() {
                    assert(t0[k].root.0 != leaf.0);
                }
            }
        }
    }
    RemoveOutcome { tab_closed: true, removed_from: None, merged: None }
},
Some(pid) => {
    proof {
        lemma_parent_rank_parts(n0, p0, self.rank_view(), self.bound_view(), t0, self.active_tab_view(), leaf.0);
        reveal(nodes_ok);
        assert(valid_id(pid));
    }
    let (idx, focus, merged) = self.detach(leaf, pid);
    self.refocus_after_detach(pid, focus, Ghost(leaf.0));
    RemoveOutcome { tab_closed: false, removed_from: Some((pid, idx)), merged }
},
        }
    }
}

/// The roots of the tabs, in order.
pub open spec fn tab_roots(t: Seq<Tab>) -> Seq<NodeId> {
    t.map_values(|tab: Tab| tab.root)
}

/// Some pane among `n` shows session `s`.
pub open spec fn shows(n: Map<u64, PaneNode>, s: SessionId) -> bool {
    exists|k: u64| n.dom().contains(k) && #[trigger] n[k] == (PaneNode::Leaf { session: s })
}

/// A removal only takes nodes away (the pane itself among them), and every
/// session still shown was shown before.
pub proof fn lemma_remove_shrinks(
    n0: Map<u64, PaneNode>,
    p0: Map<u64, u64>,
    r0: Map<u64, nat>,
    b0: nat,
    t0: Seq<Tab>,
    a0: nat,
    leaf: NodeId,
    n2: Map<u64, PaneNode>,
    p2: Map<u64, u64>,
    r2: Map<u64, nat>,
    t2: Seq<Tab>,
    a2: nat,
    r: RemoveOutcome,
)
    requires
        wf_parts(n0, p0, r0, b0, t0, a0),
        n0.dom().contains(leaf.0),
        p0.contains_key(leaf.0) || tab_index(t0, leaf.0) is Some,
        remove_spec(n0, p0, t0, a0, leaf, n2, p2, r2, t2, a2, r),
    ensures
        n2.dom().subset_of(n0.dom().remove(leaf.0)),
        n2.dom().len() < n0.dom().len(),
        forall|s: SessionId| #[trigger] shows(n2, s) ==> shows(n0, s),
{
    reveal(nodes_ok);
    assert(n0.dom().finite());
    if p0.contains_key(leaf.0) {
        let pid = p0[leaf.0];
        let cs = children_of(n0[pid]);
        let idx = first_pos(cs, leaf);
        assert(n0.dom().contains(pid) && n0[pid] is Split && cs.contains(leaf)) by {
            reveal(parents_ok);
        }
        lemma_first_pos(cs, leaf);
        assert forall|s: SessionId| #[trigger] shows(n2, s) implies shows(n0, s) by {
            let k = choose|k: u64| n2.dom().contains(k) && #[trigger] n2[k] == (PaneNode::Leaf { session: s });
            if k != pid {
                assert(n0.dom().contains(k) && n0[k] == PaneNode::Leaf { session: s });
            } else {
                assert(cs.len() <= 2);
                let child = cs.remove(idx)[0];
                let j = if idx == 0 { 1int } else { 0int };
                assert(cs.len() >= 2) by {
                    reveal(children_ok);
                }
                assert(child == cs[j]);
                assert(n0.dom().contains(child.0)) by {
                    reveal(children_ok);
                    assert(children_of(n0[pid])[j] == child);
                }
                assert(n0[child.0] == PaneNode::Leaf { session: s });
            }
        }
    } else {
        assert forall|s: SessionId| #[trigger] shows(n2, s) implies shows(n0, s) by {
            let k = choose|k: u64| n2.dom().contains(k) && #[trigger] n2[k] == (PaneNode::Leaf { session: s });
            assert(n0.dom().contains(k) && n0[k] == PaneNode::Leaf { session: s });
        }
    }
    assert(n2.dom().subset_of(n0.dom().remove(leaf.0)));
    vstd::set_lib::lemma_len_subset(n2.dom(), n0.dom().remove(leaf.0));
    vstd::set::axiom_set_remove_len(n0.dom(), leaf.0);
}

impl Workspace {
    /// Close the tab at `idx` pane by pane and return the sessions of the
    /// panes taken out, in the order they went, for the caller to shut down.
    /// The panes are found afresh from the tab's root before each removal,
    /// since a removal merges single-child splits and retires their ids, and
    /// the tab is followed by its root, which stays its root until its last
    /// pane goes. The other tabs stay, in order, and the active tab is
    /// retargeted as [`Workspace::remove`] does. An index past the last tab
    /// changes nothing.
    pub fn close_tab(&mut self, idx: usize) -> (closed: Vec<SessionId>)
        requires
            old(self).wf(),
        ensures
            final(self).wf(),
            idx >= old(self).tab_view().len() ==> {
                &&& final(self).node_view() == old(self).node_view()
                &&& final(self).parent_view() == old(self).parent_view()
                &&& final(self).tab_view() == old(self).tab_view()
                &&& final(self).active_tab_view() == old(self).active_tab_view()
                &&& closed@.len() == 0
            },
            idx < old(self).tab_view().len() ==> {
                &&& tab_roots(final(self).tab_view()) == tab_roots(old(self).tab_view()).remove(idx as int)
                &&& final(self).active_tab_view() == retarget_spec(
                    old(self).active_tab_view(),
                    idx as nat,
                    (old(self).tab_view().len() - 1) as nat,
                )
                &&& !final(self).node_view().dom().contains(old(self).tab_view()[idx as int].root.0)
                &&& final(self).node_view().dom().subset_of(old(self).node_view().dom())
                &&& closed@.len() > 0
                &&& forall|i: int| 0 <= i < closed@.len() ==> shows(old(self).node_view(), #[trigger] closed@[i])
            },
    {
        let mut closed: Vec<SessionId> = Vec::new();
        if idx >= self.tabs.len() {
            return closed;
        }
        let root = self.tabs[idx].root;
        let ghost n0 = self.node_view();
        let ghost t0 = self.tab_view();
        let ghost a0 = self.active_tab_view();
        proof {
            reveal(nodes_ok);
        }
        loop
            invariant_except_break
                idx < self.tab_view().len(),
                self.tab_view()[idx as int].root == root,
                tab_roots(self.tab_view()) == tab_roots(t0),
                self.active_tab_view() == a0,
            invariant
                self.wf(),
                idx < t0.len(),
                t0[idx as int].root == root,
                n0.dom().finite(),
                self.node_view().dom().subset_of(n0.dom()),
                forall|s: SessionId| #[trigger] shows(self.node_view(), s) ==> shows(n0, s),
                forall|i: int| 0 <= i < closed@.len() ==> shows(n0, #[trigger] closed@[i]),
            ensures
                tab_roots(self.tab_view()) == tab_roots(t0).remove(idx as int),
                self.active_tab_view() == retarget_spec(a0, idx as nat, (t0.len() - 1) as nat),
                !self.node_view().dom().contains(root.0),
                closed@.len() > 0,
            decreases self.node_view().dom().len(),
        {
            let ghost n1 = self.node_view();
            let ghost p1 = self.parent_view();
            let ghost r1 = self.rank_view();
            let ghost b1 = self.bound_view();
            let ghost t1 = self.tab_view();
            let ghost a1 = self.active_tab_view();
            proof {
                reveal(tabs_ok);
                reveal(nodes_ok);
                assert(n1.dom().contains(root.0) && !p1.contains_key(root.0));
                assert(self.top_of(root.0) == root.0);
                lemma_leaves_nonempty(n1, p1, r1, b1, root.0);
                self.lemma_leaves_in(root.0);
            }
            let leaves = self.leaves_of(root);
            let leaf = leaves[0];
            proof {
                assert(n1.dom().contains(leaf.0) && n1[leaf.0] is Leaf);
                assert(self.top_of(leaf.0) == root.0);
                if !p1.contains_key(leaf.0) {
                    assert(leaf.0 == root.0);
                    assert(tab_with_root(t1, root.0, idx as int));
                    assert(tab_index(t1, root.0) == Some(idx as int)) by {
                        let k = choose|k: int| tab_with_root(t1, root.0, k);
                        if k < idx {
                            assert(t1[k].root.0 != t1[idx as int].root.0);
                        }
                        if k > idx {
                            assert(t1[idx as int].root.0 != root.0);
                        }
                    }
                }
            }
            match self.node(leaf) {
                Some(PaneNode::Leaf { session }) => {
                    proof {
                        assert(n1[leaf.0] == PaneNode::Leaf { session: *session });
                        assert(shows(n1, *session));
                    }
                    closed.push(*session);
                },
                _ => {},
            }
            let r = self.remove(leaf);
            proof {
                lemma_remove_shrinks(
                    n1,
                    p1,
                    r1,
                    b1,
                    t1,
                    a1,
                    leaf,
                    self.node_view(),
                    self.parent_view(),
                    self.rank_view(),
                    self.tab_view(),
                    self.active_tab_view(),
                    r,
                );
                if p1.contains_key(leaf.0) {
                    assert(tab_roots(self.tab_view()) =~= tab_roots(t1));
                } else {
                    assert(tab_roots(self.tab_view()) =~= tab_roots(t1).remove(idx as int));
                }
            }
            if r.tab_closed {
                break;
            }
        }
        closed
    }
}

/// `s` without the node `x`, in order.
pub open spec fn drop_id(s: Seq<NodeId>, x: NodeId) -> Seq<NodeId>
    decreases s.len(),
{
    if s.len() == 0 {
        s
    } else {
        drop_id(s.drop_last(), x) + if s.last() == x {
            Seq::<NodeId>::empty()
        } else {
            seq![s.last()]
        }
    }
}

proof fn lemma_drop_id_single(x: NodeId, y: NodeId)
    ensures
        drop_id(seq![x], y) == if x == y {
            Seq::<NodeId>::empty()
        } else {
            seq![x]
        },
{
    let s = seq![x];
    assert(s.drop_last() =~= Seq::<NodeId>::empty());
    assert(drop_id(s.drop_last(), y) == Seq::<NodeId>::empty());
    assert(s.last() == x);
    if x == y {
        assert(drop_id(s, y) =~= Seq::<NodeId>::empty());
    } else {
        assert(drop_id(s, y) =~= seq![x]);
    }
}

proof fn lemma_drop_id_add(a: Seq<NodeId>, b: Seq<NodeId>, x: NodeId)
    ensures
        drop_id(a + b, x) == drop_id(a, x) + drop_id(b, x),
    decreases b.len(),
{
    if b.len() == 0 {
        assert(a + b =~= a);
        assert(drop_id(a, x) + drop_id(b, x) =~= drop_id(a, x));
    } else {
        assert((a + b).drop_last() =~= a + b.drop_last());
        lemma_drop_id_add(a, b.drop_last(), x);
    }
}

/// The node contents after a pane whose parent keeps at least two other
/// children was taken out of it.
pub open spec fn detached_keep(n: Map<u64, PaneNode>, n2: Map<u64, PaneNode>, leaf: u64, pid: u64, idx: int) -> bool {
    &&& n2.dom() == n.dom().remove(leaf)
    &&& n2[pid] == (PaneNode::Split { dir: n[pid]->dir, children: n2[pid]->children })
    &&& children_of(n2[pid]) == children_of(n[pid]).remove(idx)
    &&& forall|x: u64| #[trigger] n2.dom().contains(x) && x != pid ==> n2[x] == n[x]
}

/// Under such a removal, the leaves under every remaining node are the
/// leaves they were, without the removed pane, in order.
proof fn lemma_leaves_without(
    n: Map<u64, PaneNode>,
    p: Map<u64, u64>,
    r: Map<u64, nat>,
    b: nat,
    t: Seq<Tab>,
    a: nat,
    leaf: u64,
    n2: Map<u64, PaneNode>,
    k: u64,
)
    requires
        wf_parts(n, p, r, b, t, a),
        p.contains_key(leaf),
        n[leaf] is Leaf,
        detached_keep(n, n2, leaf, p[leaf], first_pos(children_of(n[p[leaf]]), NodeId(leaf))),
        n2.dom().contains(k),
    ensures
        leaves_in(n2, r, k) == drop_id(leaves_in(n, r, k), NodeId(leaf)),
    decreases r[k], 1nat, 0nat,
{
    let pid = p[leaf];
    lemma_leaf_in_parent(n, p, r, b, t, a, leaf);
    assert(n.dom().contains(k));
    match n[k] {
        PaneNode::Leaf { .. } => {
            assert(k != pid);
            assert(n2[k] == n[k]);
            assert(k != leaf);
            lemma_drop_id_single(NodeId(k), NodeId(leaf));
        },
        PaneNode::Split { children, .. } => {
            let cs = children@;
            if k != pid {
                assert(n2[k] == n[k]);
                lemma_leaves_list_without(n, p, r, b, t, a, leaf, n2, k, cs.len() as int);
                assert(cs.subrange(0, cs.len() as int) =~= cs);
            } else {
                let idx = first_pos(cs, NodeId(leaf));
                lemma_leaves_list_removed(n, p, r, b, t, a, leaf, n2, cs.len() as int);
                assert(cs.subrange(0, cs.len() as int) =~= cs);
                assert(cs.remove(idx).subrange(0, cs.len() - 1) =~= cs.remove(idx));
            }
        },
    }
}

/// The leaves under the first `m` children of a node other than the parent.
proof fn lemma_leaves_list_without(
    n: Map<u64, PaneNode>,
    p: Map<u64, u64>,
    r: Map<u64, nat>,
    b: nat,
    t: Seq<Tab>,
    a: nat,
    leaf: u64,
    n2: Map<u64, PaneNode>,
    k: u64,
    m: int,
)
    requires
        wf_parts(n, p, r, b, t, a),
        p.contains_key(leaf),
        n[leaf] is Leaf,
        detached_keep(n, n2, leaf, p[leaf], first_pos(children_of(n[p[leaf]]), NodeId(leaf))),
        n.dom().contains(k),
        k != p[leaf],
        n[k] is Split,
        0 <= m <= children_of(n[k]).len(),
    ensures
        leaves_list(n2, r, children_of(n[k]).subrange(0, m), r[k]) == drop_id(
            leaves_list(n, r, children_of(n[k]).subrange(0, m), r[k]),
            NodeId(leaf),
        ),
    decreases r[k], 0nat, m,
{
    let cs = children_of(n[k]);
    if m > 0 {
        let pre = cs.subrange(0, m - 1);
        let cur = cs.subrange(0, m);
        assert(cur.drop_last() =~= pre);
        lemma_leaves_list_without(n, p, r, b, t, a, leaf, n2, k, m - 1);
        let c = cs[m - 1];
        assert(n.dom().contains(c.0) && p.contains_key(c.0) && p[c.0] == k && r[c.0] < r[k]) by {
            reveal(children_ok);
            assert(children_of(n[k])[m - 1] == c);
        }
        assert(c.0 != leaf);
        assert(n2.dom().contains(c.0));
        lemma_leaves_without(n, p, r, b, t, a, leaf, n2, c.0);
        lemma_drop_id_add(leaves_list(n, r, pre, r[k]), leaves_in(n, r, c.0), NodeId(leaf));
    } else {
        assert(cs.subrange(0, 0) =~= Seq::<NodeId>::empty());
    }
}

/// The leaves under the parent's children: up to the removed pane's
/// position the same, past it one child fewer.
proof fn lemma_leaves_list_removed(
    n: Map<u64, PaneNode>,
    p: Map<u64, u64>,
    r: Map<u64, nat>,
    b: nat,
    t: Seq<Tab>,
    a: nat,
    leaf: u64,
    n2: Map<u64, PaneNode>,
    m: int,
)
    requires
        wf_parts(n, p, r, b, t, a),
        p.contains_key(leaf),
        n[leaf] is Leaf,
        detached_keep(n, n2, leaf, p[leaf], first_pos(children_of(n[p[leaf]]), NodeId(leaf))),
        0 <= m <= children_of(n[p[leaf]]).len(),
    ensures
        ({
            let pid = p[leaf];
            let cs = children_of(n[pid]);
            let idx = first_pos(cs, NodeId(leaf));
            let cs2 = cs.remove(idx);
            &&& m <= idx ==> leaves_list(n2, r, cs2.subrange(0, m), r[pid]) == drop_id(
                leaves_list(n, r, cs.subrange(0, m), r[pid]),
                NodeId(leaf),
            )
            &&& m > idx ==> leaves_list(n2, r, cs2.subrange(0, m - 1), r[pid]) == drop_id(
                leaves_list(n, r, cs.subrange(0, m), r[pid]),
                NodeId(leaf),
            )
        }),
    decreases r[p[leaf]], 0nat, m,
{
    let pid = p[leaf];
    lemma_leaf_in_parent(n, p, r, b, t, a, leaf);
    let cs = children_of(n[pid]);
    let idx = first_pos(cs, NodeId(leaf));
    let cs2 = cs.remove(idx);
    if m > 0 {
        lemma_leaves_list_removed(n, p, r, b, t, a, leaf, n2, m - 1);
        let c = cs[m - 1];
        assert(n.dom().contains(c.0) && p.contains_key(c.0) && p[c.0] == pid && r[c.0] < r[pid]) by {
            reveal(children_ok);
            assert(children_of(n[pid])[m - 1] == c);
        }
        let cur = cs.subrange(0, m);
        assert(cur.drop_last() =~= cs.subrange(0, m - 1));
        lemma_drop_id_add(leaves_list(n, r, cs.subrange(0, m - 1), r[pid]), leaves_in(n, r, c.0), NodeId(leaf));
        if m - 1 == idx {
            assert(c == NodeId(leaf));
            assert(leaves_in(n, r, c.0) == seq![NodeId(leaf)]);
            lemma_drop_id_single(NodeId(leaf), NodeId(leaf));
            assert(drop_id(leaves_list(n, r, cs.subrange(0, m - 1), r[pid]), NodeId(leaf)) + Seq::<NodeId>::empty()
                =~= drop_id(leaves_list(n, r, cs.subrange(0, m - 1), r[pid]), NodeId(leaf)));
        } else {
            assert(c.0 != leaf) by {
                assert(cs.no_duplicates());
                assert(cs[idx] == NodeId(leaf));
            }
            assert(n2.dom().contains(c.0));
            lemma_leaves_without(n, p, r, b, t, a, leaf, n2, c.0);
            if m - 1 < idx {
                assert(cs2.subrange(0, m) =~= cs.subrange(0, m));
                assert(cs2.subrange(0, m - 1) =~= cs.subrange(0, m - 1));
                assert(cs2.subrange(0, m).drop_last() =~= cs2.subrange(0, m - 1));
                assert(cs2.subrange(0, m).last() == c);
            } else {
                assert(cs2.subrange(0, m - 1).drop_last() =~= cs2.subrange(0, m - 2));
                assert(cs2.subrange(0, m - 1).last() == c);
                assert(cs2[m - 2] == c);
            }
        }
    } else {
        assert(cs.subrange(0, 0) =~= Seq::<NodeId>::empty());
        assert(cs2.subrange(0, 0) =~= Seq::<NodeId>::empty());
    }
}

/// The leaves under a node are live leaf nodes.
proof fn lemma_leaves_are_leaves(n: Map<u64, PaneNode>, p: Map<u64, u64>, r: Map<u64, nat>, b: nat, k: u64)
    requires
        nodes_ok(n, r, b),
        children_ok(n, p, r),
        n.dom().contains(k),
    ensures
        forall|j: int|
            0 <= j < leaves_in(n, r, k).len() ==> n.dom().contains((#[trigger] leaves_in(n, r, k)[j]).0)
                && n[leaves_in(n, r, k)[j].0] is Leaf,
    decreases r[k], 1nat, 0nat,
{
    match n[k] {
        PaneNode::Leaf { .. } => {},
        PaneNode::Split { children, .. } => {
            lemma_leaves_list_are_leaves(n, p, r, b, k, children@.len() as int);
            assert(children@.subrange(0, children@.len() as int) =~= children@);
        },
    }
}

proof fn lemma_leaves_list_are_leaves(n: Map<u64, PaneNode>, p: Map<u64, u64>, r: Map<u64, nat>, b: nat, k: u64, m: int)
    requires
        nodes_ok(n, r, b),
        children_ok(n, p, r),
        n.dom().contains(k),
        n[k] is Split,
        0 <= m <= children_of(n[k]).len(),
    ensures
        ({
            let l = leaves_list(n, r, children_of(n[k]).subrange(0, m), r[k]);
            forall|j: int| 0 <= j < l.len() ==> n.dom().contains((#[trigger] l[j]).0) && n[l[j].0] is Leaf
        }),
    decreases r[k], 0nat, m,
{
    let cs = children_of(n[k]);
    if m > 0 {
        lemma_leaves_list_are_leaves(n, p, r, b, k, m - 1);
        assert(cs.subrange(0, m).drop_last() =~= cs.subrange(0, m - 1));
        let c = cs[m - 1];
        assert(n.dom().contains(c.0) && r[c.0] < r[k]) by {
            reveal(children_ok);
            assert(children_of(n[k])[m - 1] == c);
        }
        lemma_leaves_are_leaves(n, p, r, b, c.0);
    } else {
        assert(cs.subrange(0, 0) =~= Seq::<NodeId>::empty());
    }
}

proof fn lemma_drop_id_elems(s: Seq<NodeId>, x: NodeId)
    ensures
        forall|j: int| 0 <= j < drop_id(s, x).len() ==> s.contains(#[trigger] drop_id(s, x)[j]) && drop_id(s, x)[j] != x,
    decreases s.len(),
{
    if s.len() > 0 {
        lemma_drop_id_elems(s.drop_last(), x);
        let d = drop_id(s.drop_last(), x);
        assert forall|j: int| 0 <= j < drop_id(s, x).len() implies s.contains(#[trigger] drop_id(s, x)[j])
            && drop_id(s, x)[j] != x by {
            if j < d.len() {
                assert(drop_id(s, x)[j] == d[j]);
                assert(s.drop_last().contains(d[j]));
                let i = choose|i: int| 0 <= i < s.drop_last().len() && s.drop_last()[i] == d[j];
                assert(s[i] == d[j]);
            } else {
                assert(drop_id(s, x)[j] == s.last());
                assert(s[s.len() - 1] == s.last());
            }
        }
    }
}

proof fn lemma_sessions_match(n0: Map<u64, PaneNode>, n2: Map<u64, PaneNode>, s0: Seq<NodeId>, s2: Seq<NodeId>)
    requires
        s0.len() == s2.len(),
        forall|j: int| 0 <= j < s0.len() ==> n2[(#[trigger] s2[j]).0] == n0[s0[j].0],
    ensures
        sessions_of(n2, s2) == sessions_of(n0, s0),
    decreases s0.len(),
{
    if s0.len() > 0 {
        assert forall|j: int| 0 <= j < s0.len() - 1 implies n2[(#[trigger] s2.drop_last()[j]).0] == n0[s0.drop_last()[j].0] by {
            assert(s2.drop_last()[j] == s2[j] && s0.drop_last()[j] == s0[j]);
        }
        lemma_sessions_match(n0, n2, s0.drop_last(), s2.drop_last());
        assert(n2[s2[s2.len() - 1].0] == n0[s0[s0.len() - 1].0]);
    }
}

/// `s` with the node `from` renamed `to`.
pub open spec fn rename_id(s: Seq<NodeId>, from: NodeId, to: NodeId) -> Seq<NodeId> {
    s.map_values(|y: NodeId| if y == from { to } else { y })
}

/// What a merging removal does to a list of leaves: the pane goes, and the
/// merged child's id becomes its parent's.
pub open spec fn merged_leaves(s: Seq<NodeId>, leaf: NodeId, child: NodeId, pid: NodeId) -> Seq<NodeId> {
    rename_id(drop_id(s, leaf), child, pid)
}

proof fn lemma_merged_add(a: Seq<NodeId>, b: Seq<NodeId>, leaf: NodeId, child: NodeId, pid: NodeId)
    ensures
        merged_leaves(a + b, leaf, child, pid) == merged_leaves(a, leaf, child, pid) + merged_leaves(b, leaf, child, pid),
{
    lemma_drop_id_add(a, b, leaf);
    assert(rename_id(drop_id(a, leaf) + drop_id(b, leaf), child, pid) =~= rename_id(drop_id(a, leaf), child, pid)
        + rename_id(drop_id(b, leaf), child, pid));
}

proof fn lemma_merged_single(x: NodeId, leaf: NodeId, child: NodeId, pid: NodeId)
    ensures
        merged_leaves(seq![x], leaf, child, pid) == if x == leaf {
            Seq::<NodeId>::empty()
        } else if x == child {
            seq![pid]
        } else {
            seq![x]
        },
{
    lemma_drop_id_single(x, leaf);
    if x == leaf {
        assert(rename_id(Seq::<NodeId>::empty(), child, pid) =~= Seq::<NodeId>::empty());
    } else {
        assert(rename_id(seq![x], child, pid) =~= seq![if x == child { pid } else { x }]);
    }
}

/// The node contents after a pane was taken out of a split of two, the
/// other child's content moving into the split.
pub open spec fn detached_merge(n: Map<u64, PaneNode>, n2: Map<u64, PaneNode>, leaf: u64, pid: u64, child: u64) -> bool {
    &&& children_of(n[pid]).len() == 2
    &&& children_of(n[pid]).remove(first_pos(children_of(n[pid]), NodeId(leaf))) == seq![NodeId(child)]
    &&& n2.dom() == n.dom().remove(leaf).remove(child)
    &&& same_pane(n2[pid], n[child])
    &&& forall|x: u64| #[trigger] n2.dom().contains(x) && x != pid ==> n2[x] == n[x]
}

proof fn lemma_merge_parts(
    n: Map<u64, PaneNode>,
    p: Map<u64, u64>,
    r: Map<u64, nat>,
    b: nat,
    t: Seq<Tab>,
    a: nat,
    leaf: u64,
    child: u64,
)
    requires
        wf_parts(n, p, r, b, t, a),
        p.contains_key(leaf),
        children_of(n[p[leaf]]).len() == 2,
        children_of(n[p[leaf]]).remove(first_pos(children_of(n[p[leaf]]), NodeId(leaf))) == seq![NodeId(child)],
    ensures
        n.dom().contains(child),
        p.contains_key(child),
        p[child] == p[leaf],
        r[child] < r[p[leaf]],
        r[leaf] < r[p[leaf]],
        child != leaf,
        leaves_list(n, r, children_of(n[p[leaf]]), r[p[leaf]]) == if first_pos(children_of(n[p[leaf]]), NodeId(leaf)) == 0 {
            leaves_in(n, r, leaf) + leaves_in(n, r, child)
        } else {
            leaves_in(n, r, child) + leaves_in(n, r, leaf)
        },
{
    let pid = p[leaf];
    lemma_leaf_in_parent(n, p, r, b, t, a, leaf);
    let cs = children_of(n[pid]);
    let idx = first_pos(cs, NodeId(leaf));
    let j = if idx == 0 { 1int } else { 0int };
    assert(cs.remove(idx)[0] == cs[j]);
    assert(cs[j] == NodeId(child));
    reveal(children_ok);
    assert(children_of(n[pid])[0] == cs[0] && children_of(n[pid])[1] == cs[1]);
    assert(n.dom().contains(cs[0].0) && n.dom().contains(cs[1].0));
    assert(cs.no_duplicates());
    let l = leaves_list(n, r, cs, r[pid]);
    assert(cs.drop_last().drop_last() =~= Seq::<NodeId>::empty());
    assert(cs.drop_last().last() == cs[0]);
    assert(cs.last() == cs[1]);
    assert(r[cs[0].0] < r[pid] && r[cs[1].0] < r[pid]) by {
        assert(children_of(n[pid])[0] == cs[0] && children_of(n[pid])[1] == cs[1]);
    }
    assert(leaves_list(n, r, Seq::<NodeId>::empty(), r[pid]) == Seq::<NodeId>::empty());
    assert(leaves_list(n, r, cs.drop_last(), r[pid]) =~= leaves_in(n, r, cs[0].0));
}

/// Under a merging removal, the leaves under every remaining node are the
/// leaves they were, without the removed pane, the merged child (when it
/// was a leaf) now standing under its parent's id.
proof fn lemma_leaves_merged(
    n: Map<u64, PaneNode>,
    p: Map<u64, u64>,
    r: Map<u64, nat>,
    b: nat,
    t: Seq<Tab>,
    a: nat,
    leaf: u64,
    child: u64,
    n2: Map<u64, PaneNode>,
    k: u64,
)
    requires
        wf_parts(n, p, r, b, t, a),
        p.contains_key(leaf),
        n[leaf] is Leaf,
        detached_merge(n, n2, leaf, p[leaf], child),
        n2.dom().contains(k),
    ensures
        leaves_in(n2, r, k) == merged_leaves(leaves_in(n, r, k), NodeId(leaf), NodeId(child), NodeId(p[leaf])),
    decreases r[k], 1nat, 0nat,
{
    let pid = p[leaf];
    lemma_leaf_in_parent(n, p, r, b, t, a, leaf);
    lemma_merge_parts(n, p, r, b, t, a, leaf, child);
    assert(n.dom().contains(k));
    if k != pid {
        assert(n2[k] == n[k]);
        match n[k] {
            PaneNode::Leaf { .. } => {
                lemma_merged_single(NodeId(k), NodeId(leaf), NodeId(child), NodeId(pid));
            },
            PaneNode::Split { children, .. } => {
                lemma_leaves_list_merged(n, p, r, b, t, a, leaf, child, n2, k, k, children@.len() as int);
                assert(children@.subrange(0, children@.len() as int) =~= children@);
            },
        }
    } else {
        let cs = children_of(n[pid]);
        let idx = first_pos(cs, NodeId(leaf));
        lemma_merged_single(NodeId(leaf), NodeId(leaf), NodeId(child), NodeId(pid));
        assert(leaves_in(n, r, leaf) == seq![NodeId(leaf)]);
        lemma_merged_add(leaves_in(n, r, leaf), leaves_in(n, r, child), NodeId(leaf), NodeId(child), NodeId(pid));
        lemma_merged_add(leaves_in(n, r, child), leaves_in(n, r, leaf), NodeId(leaf), NodeId(child), NodeId(pid));
        let mc = merged_leaves(leaves_in(n, r, child), NodeId(leaf), NodeId(child), NodeId(pid));
        assert(Seq::<NodeId>::empty() + mc =~= mc);
        assert(mc + Seq::<NodeId>::empty() =~= mc);
        match n[child] {
            PaneNode::Leaf { .. } => {
                assert(n2[pid] is Leaf);
                lemma_merged_single(NodeId(child), NodeId(leaf), NodeId(child), NodeId(pid));
            },
            PaneNode::Split { children, .. } => {
                assert(n2[pid] is Split && children_of(n2[pid]) == children@);
                lemma_leaves_list_merged(n, p, r, b, t, a, leaf, child, n2, pid, child, children@.len() as int);
                assert(children@.subrange(0, children@.len() as int) =~= children@);
            },
        }
    }
}

/// The leaves under the first `m` children of `src` (a node other than the
/// parent, or the merged child, whose children `dst` now holds).
proof fn lemma_leaves_list_merged(
    n: Map<u64, PaneNode>,
    p: Map<u64, u64>,
    r: Map<u64, nat>,
    b: nat,
    t: Seq<Tab>,
    a: nat,
    leaf: u64,
    child: u64,
    n2: Map<u64, PaneNode>,
    dst: u64,
    src: u64,
    m: int,
)
    requires
        wf_parts(n, p, r, b, t, a),
        p.contains_key(leaf),
        n[leaf] is Leaf,
        detached_merge(n, n2, leaf, p[leaf], child),
        n.dom().contains(src),
        n[src] is Split,
        src != p[leaf],
        (dst == src && src != child) || (dst == p[leaf] && src == child),
        n2.dom().contains(dst),
        n2[dst] is Split,
        children_of(n2[dst]) == children_of(n[src]),
        0 <= m <= children_of(n[src]).len(),
    ensures
        leaves_list(n2, r, children_of(n[src]).subrange(0, m), r[dst]) == merged_leaves(
            leaves_list(n, r, children_of(n[src]).subrange(0, m), r[src]),
            NodeId(leaf),
            NodeId(child),
            NodeId(p[leaf]),
        ),
    decreases r[dst], 0nat, m,
{
    let pid = p[leaf];
    lemma_merge_parts(n, p, r, b, t, a, leaf, child);
    let cs = children_of(n[src]);
    if m > 0 {
        lemma_leaves_list_merged(n, p, r, b, t, a, leaf, child, n2, dst, src, m - 1);
        assert(cs.subrange(0, m).drop_last() =~= cs.subrange(0, m - 1));
        let c = cs[m - 1];
        assert(n.dom().contains(c.0) && p.contains_key(c.0) && p[c.0] == src && r[c.0] < r[src]) by {
            reveal(children_ok);
            assert(children_of(n[src])[m - 1] == c);
        }
        assert(r[src] <= r[dst]);
        assert(c.0 != leaf && c.0 != child);
        assert(n2.dom().contains(c.0));
        lemma_leaves_merged(n, p, r, b, t, a, leaf, child, n2, c.0);
        lemma_merged_add(
            leaves_list(n, r, cs.subrange(0, m - 1), r[src]),
            leaves_in(n, r, c.0),
            NodeId(leaf),
            NodeId(child),
            NodeId(pid),
        );
    } else {
        assert(cs.subrange(0, 0) =~= Seq::<NodeId>::empty());
        assert(merged_leaves(Seq::<NodeId>::empty(), NodeId(leaf), NodeId(child), NodeId(pid)) =~= Seq::<NodeId>::empty());
    }
}

/// Closing a pane that has a parent split leaves every tab showing the
/// sessions it showed, in order, less the closed pane's, also when the
/// split is left with one child and merges with it.
pub proof fn law_remove_drops_its_session(
    n0: Map<u64, PaneNode>,
    p0: Map<u64, u64>,
    r0: Map<u64, nat>,
    b0: nat,
    t0: Seq<Tab>,
    a0: nat,
    leaf: NodeId,
    n2: Map<u64, PaneNode>,
    p2: Map<u64, u64>,
    t2: Seq<Tab>,
    a2: nat,
    r: RemoveOutcome,
)
    requires
        wf_parts(n0, p0, r0, b0, t0, a0),
        p0.contains_key(leaf.0),
        n0[leaf.0] is Leaf,
        remove_spec(n0, p0, t0, a0, leaf, n2, p2, r0, t2, a2, r),
    ensures
        t2.len() == t0.len(),
        forall|i: int|
            0 <= i < t0.len() ==> sessions_of(n2, leaves_in(n2, r0, (#[trigger] t2[i]).root.0)) == sessions_of(
                n0,
                drop_id(leaves_in(n0, r0, t0[i].root.0), leaf),
            ),
{
    let pid = p0[leaf.0];
    lemma_leaf_in_parent(n0, p0, r0, b0, t0, a0, leaf.0);
    assert(leaf == NodeId(leaf.0));
    let cs = children_of(n0[pid]);
    let idx = first_pos(cs, leaf);
    let child = cs.remove(idx)[0];
    if cs.len() <= 2 {
        assert(cs.remove(idx) =~= seq![child]);
        assert(detached_merge(n0, n2, leaf.0, pid, child.0));
        lemma_merge_parts(n0, p0, r0, b0, t0, a0, leaf.0, child.0);
    }
    assert forall|i: int| 0 <= i < t0.len() implies sessions_of(n2, leaves_in(n2, r0, (#[trigger] t2[i]).root.0))
        == sessions_of(n0, drop_id(leaves_in(n0, r0, t0[i].root.0), leaf)) by {
        let root = t0[i].root.0;
        assert(t2[i].root == t0[i].root);
        assert(n0.dom().contains(root) && !p0.contains_key(root)) by {
            reveal(tabs_ok);
        }
        let l0 = leaves_in(n0, r0, root);
        let d = drop_id(l0, leaf);
        lemma_leaves_are_leaves(n0, p0, r0, b0, root);
        lemma_drop_id_elems(l0, leaf);
        if cs.len() > 2 {
            assert(n2.dom().contains(root));
            lemma_leaves_without(n0, p0, r0, b0, t0, a0, leaf.0, n2, root);
            assert forall|j: int| 0 <= j < d.len() implies n2[(#[trigger] d[j]).0] == n0[d[j].0] by {
                let q = choose|q: int| 0 <= q < l0.len() && l0[q] == d[j];
                assert(n0.dom().contains(l0[q].0) && n0[l0[q].0] is Leaf);
                assert(n2.dom().contains(d[j].0));
            }
            lemma_sessions_match(n0, n2, d, d);
        } else {
            assert(root != child.0) by {
                assert(p0.contains_key(child.0));
            }
            assert(n2.dom().contains(root));
            lemma_leaves_merged(n0, p0, r0, b0, t0, a0, leaf.0, child.0, n2, root);
            let d2 = rename_id(d, child, NodeId(pid));
            assert forall|j: int| 0 <= j < d.len() implies n2[(#[trigger] d2[j]).0] == n0[d[j].0] by {
                let q = choose|q: int| 0 <= q < l0.len() && l0[q] == d[j];
                assert(n0.dom().contains(l0[q].0) && n0[l0[q].0] is Leaf);
                if d[j] == child {
                    assert(d2[j] == NodeId(pid));
                    assert(same_pane(n2[pid], n0[child.0]));
                } else {
                    assert(d2[j] == d[j]);
                    assert(n2.dom().contains(d[j].0));
                }
            }
            lemma_sessions_match(n0, n2, d, d2);
        }
    }
}

/// The session shown in pane `id`, if it is a leaf.
pub open spec fn session_in(n: Map<u64, PaneNode>, id: NodeId) -> Option<SessionId> {
    if n.dom().contains(id.0) {
        match n[id.0] {
            PaneNode::Leaf { session } => Some(session),
            _ => None,
        }
    } else {
        None
    }
}

/// Closing a tab other than the active one keeps the same tab active;
/// closing the active tab activates the tab before it, or the new first
/// tab when it was the first.
pub proof fn law_close_tab_focus(t: Seq<Tab>, a: nat, idx: int)
    requires
        0 <= idx < t.len(),
        a < t.len(),
        t.len() >= 2,
    ensures
        ({
            let a2 = retarget_spec(a, idx as nat, (t.len() - 1) as nat) as int;
            &&& 0 <= a2 < t.len() - 1
            &&& idx != a ==> t.remove(idx)[a2] == t[a as int]
            &&& idx == a && a > 0 ==> t.remove(idx)[a2] == t[a - 1]
            &&& idx == a && a == 0 ==> t.remove(idx)[a2] == t[1]
        }),
{
}

/// Focus moved forward and then back (or back and then forward) returns
/// to the pane it started on, when the panes are distinct and it is one
/// of them.
pub proof fn law_cycle_round_trip(ls: Seq<NodeId>, x: NodeId)
    requires
        ls.len() >= 2,
        ls.no_duplicates(),
        ls.contains(x),
    ensures
        cycle_target(ls, cycle_target(ls, x, true), false) == x,
        cycle_target(ls, cycle_target(ls, x, false), true) == x,
{
    let n = ls.len() as int;
    lemma_first_pos(ls, x);
    let pos = first_pos(ls, x);
    let j = choose|j: int| 0 <= j < ls.len() && ls[j] == x;
    assert(pos == j) by {
        if pos != j {
            assert(ls[pos] == ls[j]);
        }
    }
    let f = (pos + 1) % n;
    let bk = (pos + n - 1) % n;
    assert(0 <= f < n && 0 <= bk < n) by (nonlinear_arith)
        requires
            n >= 2,
            0 <= pos < n,
            f == (pos + 1) % n,
            bk == (pos + n - 1) % n,
    ;
    lemma_first_pos(ls, ls[f]);
    lemma_first_pos(ls, ls[bk]);
    assert(first_pos(ls, ls[f]) == f) by {
        let q = first_pos(ls, ls[f]);
        if q != f {
            assert(ls[q] == ls[f]);
        }
    }
    assert(first_pos(ls, ls[bk]) == bk) by {
        let q = first_pos(ls, ls[bk]);
        if q != bk {
            assert(ls[q] == ls[bk]);
        }
    }
    assert((f + n - 1) % n == pos && (bk + 1) % n == pos) by (nonlinear_arith)
        requires
            n >= 2,
            0 <= pos < n,
            f == (pos + 1) % n,
            bk == (pos + n - 1) % n,
    ;
}

/// Closing a pane that no tab is focused on leaves every tab showing the
/// same session in its focused pane.
pub proof fn law_remove_unfocused_keeps_focus(
    n0: Map<u64, PaneNode>,
    p0: Map<u64, u64>,
    r0: Map<u64, nat>,
    b0: nat,
    t0: Seq<Tab>,
    a0: nat,
    leaf: NodeId,
    n2: Map<u64, PaneNode>,
    p2: Map<u64, u64>,
    r2: Map<u64, nat>,
    t2: Seq<Tab>,
    a2: nat,
    r: RemoveOutcome,
)
    requires
        wf_parts(n0, p0, r0, b0, t0, a0),
        p0.contains_key(leaf.0),
        n0[leaf.0] is Leaf,
        remove_spec(n0, p0, t0, a0, leaf, n2, p2, r2, t2, a2, r),
        forall|i: int| 0 <= i < t0.len() ==> (#[trigger] t0[i]).active_leaf != leaf,
    ensures
        t2.len() == t0.len(),
        forall|i: int| 0 <= i < t0.len() ==> session_in(n2, (#[trigger] t2[i]).active_leaf) == session_in(n0, t0[i].active_leaf),
{
    let pid = p0[leaf.0];
    lemma_leaf_in_parent(n0, p0, r0, b0, t0, a0, leaf.0);
    let cs = children_of(n0[pid]);
    let idx = first_pos(cs, leaf);
    assert forall|i: int| 0 <= i < t0.len() implies session_in(n2, (#[trigger] t2[i]).active_leaf) == session_in(n0, t0[i].active_leaf) by {
        let al = t0[i].active_leaf;
        assert(n0.dom().contains(al.0) && n0[al.0] is Leaf) by {
            reveal(tabs_ok);
        }
        assert(al.0 != pid);
        assert(al.0 != leaf.0);
        if cs.len() > 2 {
            assert(t2[i].active_leaf == al);
            assert(n2[al.0] == n0[al.0]);
        } else {
            let child = cs.remove(idx)[0];
            let cidx = if idx == 0 { 1int } else { 0int };
            assert(cs.remove(idx)[0] == cs[cidx]);
            assert(children_of(n0[pid])[cidx] == child);
            assert(p0.contains_key(child.0) && p0[child.0] == pid && n0.dom().contains(child.0)) by {
                reveal(children_ok);
            }
            lemma_parent_rank_parts(n0, p0, r0, b0, t0, a0, child.0);
            assert(child.0 != pid);
            assert(r.merged == Some(child));
            if al == child {
                assert(t2[i].active_leaf == NodeId(pid));
                assert(pid != leaf.0);
                assert(n2.dom().contains(pid));
            } else {
                assert(t2[i].active_leaf == al);
                assert(n2.dom().contains(al.0));
                assert(n2[al.0] == n0[al.0]);
            }
        }
    }
}

impl Default for Workspace {
    /// No tabs.
    fn default() -> (r: Workspace)
        ensures
            r.wf(),
            r.tab_view().len() == 0,
            r.node_view().dom().is_empty(),
    {
        let ws = Workspace {
            nodes: arena_new(),
            parent: parents_new(),
            tabs: Vec::new(),
            active_tab: 0,
            rank: Ghost(Map::empty()),
            bound: Ghost(0),
        };
        assert(ws.node_view().dom() =~= Set::<u64>::empty());
        assert(ws.parent_view().dom() =~= Set::<u64>::empty());
        proof {
            reveal(nodes_ok);
            reveal(parents_ok);
            reveal(children_ok);
            reveal(roots_ok);
            reveal(tabs_ok);
        }
        ws
    }
}

/// The title a tab shows: its session's title, "Shell" while there is none.
pub fn tab_title(session_title: Option<&str>) -> (r: String)
    ensures
        r@ == match session_title {
            Some(t) if t@.len() > 0 => t@,
            _ => "Shell"@,
        },
{
    match session_title {
        Some(t) => {
            if t.unicode_len() > 0 {
                return crate::text::string_from(t);
            }
        },
        None => {},
    }
    crate::text::string_from("Shell")
}

} // verus!
