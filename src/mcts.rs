use vstd::prelude::*;
use vstd::seq_lib::seq_to_set_is_finite;
use vstd::set_lib::{lemma_int_range, lemma_len_subset, set_int_range};
use rand::seq::SliceRandom;
use crate::game::{reaches, GameState};

verus! {

/// Relies on rand's `SliceRandom::choose` with the thread-local generator: it hands back
/// one element of the slice, and `None` only when the slice is empty.
#[verifier::external_body]
fn choose_move<M: Copy>(moves: &Vec<M>) -> (r: Option<M>)
    ensures
        r is None <==> moves@.len() == 0,
        r matches Some(m) ==> moves@.contains(m),
{
    moves.choose(&mut rand::thread_rng()).copied()
}

#[verifier::external_type_specification]
#[verifier::external_body]
pub struct ExInstant(std::time::Instant);

/// Relies on `std::time::Instant::now`: the time now; nothing is promised of its value.
#[verifier::external_body]
fn clock_now() -> (r: std::time::Instant) {
    std::time::Instant::now()
}

/// Relies on `std::time::Instant::elapsed`: the time since `start`; nothing is promised of
/// its value.
#[verifier::external_body]
fn elapsed_since(start: &std::time::Instant) -> (r: std::time::Duration) {
    start.elapsed()
}

/// Relies on `std::time::Duration::as_nanos`: the length of `d` in nanoseconds.
#[verifier::external_body]
fn nanos_of(d: &std::time::Duration) -> (r: u128) {
    d.as_nanos()
}

/// One position of the explored game tree.
pub struct Node<S: GameState> {
    /// The move that got the game state to this node.
    pub mv: Option<S::Move>,
    /// The ID of the parent node, or None for the top of the tree.
    pub parent_node: Option<usize>,
    /// The IDs of the child nodes.
    pub child_nodes: Vec<usize>,
    /// The number of playouts through this node won by the player who moved into it.
    pub wins: u64,
    /// The number of playouts through this node.
    pub visits: u64,
    /// The legal moves of `state` not yet expanded into a child.
    pub untried_mvs: Vec<S::Move>,
    /// The game state that this node reflects.
    pub state: S,
}

/// What a playout ending in `winner` adds to the wins of node `n`.
pub open spec fn credit<S: GameState>(n: Node<S>, winner: Option<S::Player>) -> int {
    if winner == Some(n.state.prev_spec()) {
        1
    } else {
        0
    }
}

/// `s` with every occurrence of `m` taken out, the rest in order.
pub open spec fn without<M>(s: Seq<M>, m: M) -> Seq<M>
    decreases s.len(),
{
    if s.len() == 0 {
        seq![]
    } else {
        without(s.drop_last(), m) + if s.last() == m {
            seq![]
        } else {
            seq![s.last()]
        }
    }
}

proof fn lemma_without_subset<M>(s: Seq<M>, m: M, x: M)
    requires
        without(s, m).contains(x),
    ensures
        s.contains(x),
        x != m,
    decreases s.len(),
{
    if s.len() > 0 {
        let w = without(s.drop_last(), m);
        let i = choose|i: int| 0 <= i < without(s, m).len() && without(s, m)[i] == x;
        if i < w.len() {
            assert(w[i] == x);
            lemma_without_subset(s.drop_last(), m, x);
            let j = choose|j: int| 0 <= j < s.drop_last().len() && s.drop_last()[j] == x;
            assert(s[j] == x);
        } else {
            assert(s[s.len() - 1] == x);
        }
    }
}

/// Node `n` keeps the counts consistent and tries only legal moves; when every move is
/// tried and none led to a child, the game has ended.
pub open spec fn node_wf<S: GameState>(n: Node<S>) -> bool {
    &&& n.wins <= n.visits
    &&& n.untried_mvs@.len() == 0 && n.child_nodes@.len() == 0 ==> n.state.moves_spec().len() == 0
    &&& forall|k: int|
        0 <= k < n.untried_mvs@.len() ==> n.state.moves_spec().contains(#[trigger] n.untried_mvs@[k])
}

/// The children of node `i` came from distinct moves, none of them still untried.
pub open spec fn sibling_moves_ok<S: GameState>(t: Seq<Node<S>>, i: int) -> bool {
    let ch = t[i].child_nodes@;
    &&& forall|a: int, b: int|
        0 <= a < b < ch.len() ==> t[#[trigger] ch[a] as int].mv != t[#[trigger] ch[b] as int].mv
    &&& forall|k: int|
        0 <= k < ch.len() ==> !t[i].untried_mvs@.contains(t[#[trigger] ch[k] as int].mv->Some_0)
}

/// Node `i` of arena `t` is well formed and linked to its parent and children.
pub open spec fn node_ok<S: GameState>(t: Seq<Node<S>>, i: int) -> bool {
    &&& node_wf(t[i])
    &&& t[i].child_nodes@.no_duplicates()
    &&& if i == 0 {
        t[i].parent_node is None
    } else {
        t[i].parent_node matches Some(p) && p < i && t[i].visits <= t[p as int].visits && t[p as int].child_nodes@.contains(
            i as usize,
        )
    }
    &&& sibling_moves_ok(t, i)
    &&& forall|k: int|
        0 <= k < t[i].child_nodes@.len() ==> {
            let c = #[trigger] t[i].child_nodes@[k];
            &&& i < c < t.len()
            &&& t[c as int].parent_node == Some(i as usize)
            &&& t[c as int].mv matches Some(m)
            &&& t[i].state.moves_spec().contains(m)
            &&& t[i].state.applies(m, t[c as int].state)
        }
}

/// The arena invariant: node 0 tops the tree, every other node has a parent with a
/// smaller handle, and parent and child links agree.
pub open spec fn tree_wf<S: GameState>(t: Seq<Node<S>>) -> bool {
    &&& t.len() > 0
    &&& forall|i: int| 0 <= i < t.len() ==> #[trigger] node_ok(t, i)
}

/// `a` is `n` or one of its ancestors.
pub open spec fn is_ancestor<S: GameState>(t: Seq<Node<S>>, a: int, n: int) -> bool
    decreases n,
{
    if n == a {
        true
    } else if 0 <= n < t.len() {
        match t[n].parent_node {
            Some(p) => 0 <= p < n && is_ancestor(t, a, p as int),
            None => false,
        }
    } else {
        false
    }
}

proof fn lemma_ancestor_le<S: GameState>(t: Seq<Node<S>>, a: int, n: int)
    requires
        is_ancestor(t, a, n),
    ensures
        a <= n,
    decreases n,
{
    if n != a {
        let p = t[n].parent_node->Some_0;
        lemma_ancestor_le(t, a, p as int);
    }
}

proof fn lemma_visits_le_top<S: GameState>(t: Seq<Node<S>>, i: int)
    requires
        tree_wf(t),
        0 <= i < t.len(),
    ensures
        t[i].visits <= t[0].visits,
    decreases i,
{
    assert(node_ok(t, i));
    if i > 0 {
        lemma_visits_le_top(t, t[i].parent_node->Some_0 as int);
    }
}

impl<S: GameState> Node<S> {
    /// Constructs a node for `state`, reached by `mv` from `parent_node`, with every legal
    /// move still untried.
    pub fn new(mv: Option<S::Move>, parent_node: Option<usize>, state: S) -> (r: Node<S>)
        ensures
            r.mv == mv,
            r.parent_node == parent_node,
            r.child_nodes@ == Seq::<usize>::empty(),
            r.wins == 0,
            r.visits == 0,
            r.untried_mvs@ == state.moves_spec(),
            r.state == state,
            node_wf(r),
    {
        Node {
            mv,
            parent_node,
            child_nodes: Vec::new(),
            wins: 0,
            visits: 0,
            untried_mvs: state.get_moves(),
            state,
        }
    }

    /// Returns whether every legal move has been expanded into a child.
    pub fn is_fully_expanded(&self) -> (r: bool)
        ensures
            r == (self.untried_mvs@.len() == 0),
    {
        self.untried_mvs.len() == 0
    }

    /// Returns whether this node has any children.
    pub fn has_children(&self) -> (r: bool)
        ensures
            r == (self.child_nodes@.len() != 0),
    {
        self.child_nodes.len() != 0
    }

    /// Records one playout that ended with `winner`: one more visit, and one more win when
    /// the winner is the player who moved into this node.
    pub fn update(&mut self, winner: Option<S::Player>)
        requires
            old(self).visits < u64::MAX,
            old(self).wins <= old(self).visits,
        ensures
            final(self).visits == old(self).visits + 1,
            final(self).wins == old(self).wins + credit(*old(self), winner),
            final(self).mv == old(self).mv,
            final(self).parent_node == old(self).parent_node,
            final(self).child_nodes == old(self).child_nodes,
            final(self).untried_mvs == old(self).untried_mvs,
            final(self).state == old(self).state,
    {
        self.visits = self.visits + 1;
        if let Some(wnr) = winner {
            let prev = self.state.get_prev_player();
            if S::same_player(&wnr, &prev) {
                self.wins = self.wins + 1;
            }
        }
    }
}


/// `v` without the moves equal to `mv`.
fn remove_move<S: GameState>(v: &Vec<S::Move>, mv: S::Move) -> (r: Vec<S::Move>)
    ensures
        r@ == without(v@, mv),
{
    let mut r: Vec<S::Move> = Vec::new();
    let mut i: usize = 0;
    while i < v.len()
        invariant
            i <= v@.len(),
            r@ == without(v@.subrange(0, i as int), mv),
        decreases v@.len() - i,
    {
        assert(v@.subrange(0, i + 1).drop_last() =~= v@.subrange(0, i as int));
        if !S::same_move(&v[i], &mv) {
            r.push(v[i]);
        }
        i = i + 1;
    }
    assert(v@.subrange(0, v@.len() as int) =~= v@);
    r
}

/// Arena `t2` is `t` with one child added to node `id` by the legal move `mv`: the new
/// node takes the next handle, starts with no statistics and no children, and holds the
/// state that `mv` leads to; `mv` is no longer untried at `id`.
pub open spec fn expanded_by<S: GameState>(t: Seq<Node<S>>, t2: Seq<Node<S>>, id: int, mv: S::Move) -> bool {
    let r = t.len() as int;
    &&& t2.len() == r + 1
    &&& forall|i: int| 0 <= i < r && i != id ==> t2[i] == t[i]
    &&& t2[id].mv == t[id].mv
    &&& t2[id].parent_node == t[id].parent_node
    &&& t2[id].wins == t[id].wins
    &&& t2[id].visits == t[id].visits
    &&& t2[id].state == t[id].state
    &&& t2[id].child_nodes@ == t[id].child_nodes@.push(r as usize)
    &&& t2[id].untried_mvs@ == without(t[id].untried_mvs@, mv)
    &&& t2[r].mv == Some(mv)
    &&& t2[r].parent_node == Some(id as usize)
    &&& t2[r].child_nodes@.len() == 0
    &&& t2[r].wins == 0
    &&& t2[r].visits == 0
    &&& t[id].state.applies(mv, t2[r].state)
    &&& t2[r].untried_mvs@ == t2[r].state.moves_spec()
}

/// Among the first `k` children of node `id`, the last one reached by `mv`.
pub open spec fn last_child_by<S: GameState>(t: Seq<Node<S>>, id: int, mv: S::Move, k: int) -> Option<usize>
    decreases k,
{
    if k <= 0 {
        None
    } else if t[t[id].child_nodes@[k - 1] as int].mv == Some(mv) {
        Some(t[id].child_nodes@[k - 1])
    } else {
        last_child_by(t, id, mv, k - 1)
    }
}

proof fn lemma_last_child_by<S: GameState>(t: Seq<Node<S>>, id: int, mv: S::Move, k: int)
    requires
        0 <= k <= t[id].child_nodes@.len(),
        last_child_by(t, id, mv, k) is Some,
    ensures
        exists|j: int|
            0 <= j < k && t[id].child_nodes@[j] == last_child_by(t, id, mv, k)->Some_0,
        t[last_child_by(t, id, mv, k)->Some_0 as int].mv == Some(mv),
    decreases k,
{
    if t[t[id].child_nodes@[k - 1] as int].mv != Some(mv) {
        lemma_last_child_by(t, id, mv, k - 1);
    }
}

/// Nodes `a` and `b` differ at most in their statistics.
pub open spec fn same_but_counts<S: GameState>(a: Node<S>, b: Node<S>) -> bool {
    &&& a.mv == b.mv
    &&& a.parent_node == b.parent_node
    &&& a.child_nodes == b.child_nodes
    &&& a.untried_mvs == b.untried_mvs
    &&& a.state == b.state
}

/// Arena `t2` is `t` with one playout ending in `winner` recorded on the nodes that `on` picks.
pub open spec fn recorded_on<S: GameState>(t: Seq<Node<S>>, t2: Seq<Node<S>>, winner: Option<S::Player>, on: spec_fn(int) -> bool) -> bool {
    &&& t2.len() == t.len()
    &&& forall|i: int|
        0 <= i < t.len() ==> {
            &&& same_but_counts(#[trigger] t2[i], t[i])
            &&& t2[i].visits == t[i].visits + if on(i) { 1int } else { 0int }
            &&& t2[i].wins == t[i].wins + if on(i) { credit(t[i], winner) } else { 0int }
        }
}

/// Arena `t2` is `t` with one playout ending in `winner` recorded on node `n` and on each
/// of its ancestors.
pub open spec fn backed_up<S: GameState>(t: Seq<Node<S>>, t2: Seq<Node<S>>, n: int, winner: Option<S::Player>) -> bool {
    recorded_on(t, t2, winner, |i: int| is_ancestor(t, i, n))
}

proof fn lemma_ancestor_of_parent<S: GameState>(t: Seq<Node<S>>, i: int, n: int)
    requires
        tree_wf(t),
        0 <= n < t.len(),
        0 < i,
        is_ancestor(t, i, n),
    ensures
        is_ancestor(t, t[i].parent_node->Some_0 as int, n),
    decreases n,
{
    lemma_ancestor_le(t, i, n);
    assert(node_ok(t, i));
    assert(node_ok(t, n));
    if n != i {
        let q = t[n].parent_node->Some_0 as int;
        lemma_ancestor_of_parent(t, i, q);
    } else {
        assert(is_ancestor(t, t[i].parent_node->Some_0 as int, t[i].parent_node->Some_0 as int));
    }
}

proof fn lemma_backed_up_wf<S: GameState>(t: Seq<Node<S>>, t2: Seq<Node<S>>, n: int, winner: Option<S::Player>)
    requires
        tree_wf(t),
        0 <= n < t.len(),
        backed_up(t, t2, n, winner),
    ensures
        tree_wf(t2),
{
    assert forall|i: int| 0 <= i < t2.len() implies #[trigger] node_ok(t2, i) by {
        assert(node_ok(t, i));
        assert(same_but_counts(t2[i], t[i]));
        if i > 0 {
            let p = t[i].parent_node->Some_0 as int;
            assert(same_but_counts(t2[p], t[p]));
            if is_ancestor(t, i, n) {
                lemma_ancestor_of_parent(t, i, n);
            }
        }
        assert forall|k: int| 0 <= k < t2[i].child_nodes@.len() implies {
            let c = #[trigger] t2[i].child_nodes@[k];
            &&& i < c < t2.len()
            &&& t2[c as int].parent_node == Some(i as usize)
            &&& t2[c as int].mv matches Some(m)
            &&& t2[i].state.moves_spec().contains(m)
            &&& t2[i].state.applies(m, t2[c as int].state)
        } by {
            let c = t[i].child_nodes@[k];
            assert(same_but_counts(t2[c as int], t[c as int]));
        }
    }
}

/// The position of the last greatest key among the first `n`.
pub open spec fn last_max(keys: Seq<u64>, n: int) -> int
    decreases n,
{
    if n <= 1 {
        0
    } else {
        let m = last_max(keys, n - 1);
        if keys[n - 1] >= keys[m] {
            n - 1
        } else {
            m
        }
    }
}

/// The win rate of `a` is at most that of `b`; a node never visited counts as rate 0.
pub open spec fn rate_le<S: GameState>(a: Node<S>, b: Node<S>) -> bool {
    a.wins * (if b.visits == 0 { 1int } else { b.visits as int }) <= b.wins * (if a.visits == 0 {
        1int
    } else {
        a.visits as int
    })
}

/// Among the first `n` children of node `id`, the position of the last one with the
/// greatest win rate.
pub open spec fn last_best_rate<S: GameState>(t: Seq<Node<S>>, id: int, n: int) -> int
    decreases n,
{
    if n <= 1 {
        0
    } else {
        let m = last_best_rate(t, id, n - 1);
        let ch = t[id].child_nodes@;
        if rate_le(t[ch[m] as int], t[ch[n - 1] as int]) {
            n - 1
        } else {
            m
        }
    }
}

proof fn lemma_last_max(keys: Seq<u64>, n: int)
    requires
        0 < n <= keys.len(),
    ensures
        0 <= last_max(keys, n) < n,
        forall|j: int| 0 <= j < n ==> #[trigger] keys[j] <= keys[last_max(keys, n)],
        forall|j: int| last_max(keys, n) < j < n ==> #[trigger] keys[j] < keys[last_max(keys, n)],
    decreases n,
{
    if n > 1 {
        lemma_last_max(keys, n - 1);
    }
}

proof fn lemma_rate_trans<S: GameState>(a: Node<S>, b: Node<S>, c: Node<S>)
    requires
        rate_le(a, b),
        rate_le(b, c),
    ensures
        rate_le(a, c),
{
    let va: int = if a.visits == 0 { 1 } else { a.visits as int };
    let vb: int = if b.visits == 0 { 1 } else { b.visits as int };
    let vc: int = if c.visits == 0 { 1 } else { c.visits as int };
    let (wa, wb, wc) = (a.wins as int, b.wins as int, c.wins as int);
    assert(wa * vc <= wc * va) by (nonlinear_arith)
        requires
            wa * vb <= wb * va,
            wb * vc <= wc * vb,
            va > 0,
            vb > 0,
            vc > 0,
            wa >= 0,
            wb >= 0,
            wc >= 0,
    {
        assert(wa * vb * vc <= wb * va * vc);
        assert(wb * vc * va <= wc * vb * va);
    }
}

proof fn lemma_rate_total<S: GameState>(a: Node<S>, b: Node<S>)
    ensures
        rate_le(a, b) || rate_le(b, a),
{
}

proof fn lemma_last_best_rate<S: GameState>(t: Seq<Node<S>>, id: int, n: int)
    requires
        0 <= id < t.len(),
        0 < n <= t[id].child_nodes@.len(),
    ensures
        0 <= last_best_rate(t, id, n) < n,
        forall|j: int|
            0 <= j < n ==> rate_le(
                #[trigger] t[t[id].child_nodes@[j] as int],
                t[t[id].child_nodes@[last_best_rate(t, id, n)] as int],
            ),
    decreases n,
{
    let ch = t[id].child_nodes@;
    if n > 1 {
        lemma_last_best_rate(t, id, n - 1);
        let m = last_best_rate(t, id, n - 1);
        assert forall|j: int| 0 <= j < n implies rate_le(
            t[ch[j] as int],
            t[ch[last_best_rate(t, id, n)] as int],
        ) by {
            lemma_rate_total(t[ch[m] as int], t[ch[n - 1] as int]);
            if j < n - 1 && rate_le(t[ch[m] as int], t[ch[n - 1] as int]) {
                lemma_rate_trans(t[ch[j] as int], t[ch[m] as int], t[ch[n - 1] as int]);
            }
        }
    }
}

proof fn lemma_last_max_prefix(a: Seq<u64>, b: Seq<u64>, n: int)
    requires
        0 <= n <= a.len(),
        n <= b.len(),
        forall|j: int| 0 <= j < n ==> a[j] == b[j],
    ensures
        last_max(a, n) == last_max(b, n),
    decreases n,
{
    if n > 1 {
        lemma_last_max_prefix(a, b, n - 1);
        lemma_last_max(a, n - 1);
    }
}

proof fn lemma_ancestor_same_parents<S: GameState>(t: Seq<Node<S>>, t1: Seq<Node<S>>, a: int, n: int)
    requires
        is_ancestor(t, a, n),
        n < t.len() <= t1.len(),
        forall|i: int| 0 <= i < t.len() ==> (#[trigger] t1[i]).parent_node == t[i].parent_node,
    ensures
        is_ancestor(t1, a, n),
    decreases n,
{
    if n != a {
        lemma_ancestor_same_parents(t, t1, a, t[n].parent_node->Some_0 as int);
    }
}

/// `a` holds the same move, statistics, untried moves and state as `b`.
pub open spec fn copy_of<S: GameState>(a: Node<S>, b: Node<S>) -> bool {
    &&& a.mv == b.mv
    &&& a.wins == b.wins
    &&& a.visits == b.visits
    &&& a.untried_mvs@ == b.untried_mvs@
    &&& a.state == b.state
}

/// The children of new node `j` are the copies, in order, of the children of the node of
/// `t` that it copies.
pub open spec fn children_mapped<S: GameState>(t: Seq<Node<S>>, nt: Seq<Node<S>>, o: Seq<usize>, j: int) -> bool {
    &&& nt[j].child_nodes@.len() == t[o[j] as int].child_nodes@.len()
    &&& forall|x: int|
        0 <= x < nt[j].child_nodes@.len() ==> {
            let c = #[trigger] nt[j].child_nodes@[x];
            &&& j < c < nt.len()
            &&& nt[c as int].parent_node == Some(j as usize)
            &&& o[c as int] == t[o[j] as int].child_nodes@[x]
        }
}

/// New node `j` has a parent among the first `k` new nodes, below `j`, that lists it as a
/// child, and it copies the parent of the old node that `j` copies.
pub open spec fn parent_mapped<S: GameState>(t: Seq<Node<S>>, nt: Seq<Node<S>>, o: Seq<usize>, j: int, k: int) -> bool {
    match nt[j].parent_node {
        Some(p) => p < k && p < j && t[o[j] as int].parent_node == Some(o[p as int])
            && nt[p as int].child_nodes@.contains(j as usize),
        None => false,
    }
}

/// The handle that the first child of node `j` takes in a breadth-first layout: one more
/// than the number of children of the nodes before `j`.
pub open spec fn bfs_next<S: GameState>(nt: Seq<Node<S>>, j: int) -> int
    decreases j,
{
    if j <= 0 {
        1
    } else {
        bfs_next(nt, j - 1) + nt[j - 1].child_nodes@.len()
    }
}

proof fn lemma_bfs_next_prefix<S: GameState>(a: Seq<Node<S>>, b: Seq<Node<S>>, n: int)
    requires
        n <= a.len(),
        n <= b.len(),
        forall|i: int| 0 <= i < n ==> (#[trigger] a[i]).child_nodes@.len() == b[i].child_nodes@.len(),
    ensures
        bfs_next(a, n) == bfs_next(b, n),
    decreases n,
{
    if n > 0 {
        lemma_bfs_next_prefix(a, b, n - 1);
    }
}

/// Arena `nt` copies nodes of arena `t` below `cur`: new node `j` copies old node `o[j]`,
/// new node 0 copies `cur` and has no parent, parents map to parents, and the first `k`
/// new nodes have all their children copied, numbered in breadth-first order.
pub open spec fn reroot_inv<S: GameState>(t: Seq<Node<S>>, cur: int, nt: Seq<Node<S>>, o: Seq<usize>, k: int) -> bool {
    &&& nt.len() == o.len()
    &&& 0 < nt.len() <= t.len()
    &&& 0 <= k <= nt.len()
    &&& o[0] == cur
    &&& nt[0].parent_node is None
    &&& o.no_duplicates()
    &&& forall|j: int|
        0 <= j < nt.len() ==> {
            &&& copy_of(#[trigger] nt[j], t[o[j] as int])
            &&& o[j] < t.len()
            &&& is_ancestor(t, cur, o[j] as int)
        }
    &&& forall|j: int| 0 < j < nt.len() ==> #[trigger] parent_mapped(t, nt, o, j, k)
    &&& forall|j: int| 0 <= j < k ==> #[trigger] children_mapped(t, nt, o, j)
    &&& nt.len() == bfs_next(nt, k)
    &&& forall|j: int, x: int|
        0 <= j < k && 0 <= x < nt[j].child_nodes@.len() ==> #[trigger] nt[j].child_nodes@[x] == bfs_next(nt, j) + x
}

/// The arena `nt` is the subtree of `t` below `cur`, renumbered so that `cur` becomes
/// node 0 and the others numbered breadth-first: every node keeps its move, statistics,
/// untried moves and state, and every child of a kept node is kept.
pub open spec fn rerooted<S: GameState>(t: Seq<Node<S>>, cur: int, nt: Seq<Node<S>>) -> bool {
    exists|o: Seq<usize>| reroot_inv(t, cur, nt, o, nt.len() as int)
}

proof fn lemma_distinct_bounded(o: Seq<usize>, n: int)
    requires
        o.no_duplicates(),
        0 <= n,
        forall|j: int| 0 <= j < o.len() ==> o[j] < n,
    ensures
        o.len() <= n,
{
    let s = o.map_values(|x: usize| x as int);
    assert forall|a: int, b: int| 0 <= a < b < s.len() implies s[a] != s[b] by {
        assert(o[a] != o[b]);
    }
    s.unique_seq_to_set();
    lemma_int_range(0, n);
    assert forall|x: int| s.to_set().contains(x) implies set_int_range(0, n).contains(x) by {
        let j = choose|j: int| 0 <= j < s.len() && s[j] == x;
        assert(o[j] < n);
    }
    lemma_len_subset(s.to_set(), set_int_range(0, n));
}

proof fn lemma_rerooted_wf<S: GameState>(t: Seq<Node<S>>, cur: int, nt: Seq<Node<S>>, o: Seq<usize>)
    requires
        tree_wf(t),
        reroot_inv(t, cur, nt, o, nt.len() as int),
    ensures
        tree_wf(nt),
{
    assert forall|j: int| 0 <= j < nt.len() implies #[trigger] node_ok(nt, j) by {
        assert(copy_of(nt[j], t[o[j] as int]));
        assert(node_ok(t, o[j] as int));
        assert(children_mapped(t, nt, o, j));
        if j > 0 {
            assert(parent_mapped(t, nt, o, j, nt.len() as int));
            let p = nt[j].parent_node->Some_0 as int;
            assert(copy_of(nt[p], t[o[p] as int]));
        }
        assert forall|x: int| 0 <= x < nt[j].child_nodes@.len() implies {
            let c = #[trigger] nt[j].child_nodes@[x];
            &&& j < c < nt.len()
            &&& nt[c as int].parent_node == Some(j as usize)
            &&& nt[c as int].mv matches Some(m)
            &&& nt[j].state.moves_spec().contains(m)
            &&& nt[j].state.applies(m, nt[c as int].state)
        } by {
            let c = nt[j].child_nodes@[x];
            assert(copy_of(nt[c as int], t[o[c as int] as int]));
            assert(t[o[j] as int].child_nodes@[x] == o[c as int]);
        }
        assert forall|a: int, b: int| 0 <= a < b < nt[j].child_nodes@.len() implies nt[j].child_nodes@[a]
            != nt[j].child_nodes@[b] by {
            let ca = nt[j].child_nodes@[a];
            let cb = nt[j].child_nodes@[b];
            assert(o[ca as int] == t[o[j] as int].child_nodes@[a]);
            assert(o[cb as int] == t[o[j] as int].child_nodes@[b]);
        }
        let ch = nt[j].child_nodes@;
        let tch = t[o[j] as int].child_nodes@;
        assert forall|a: int, b: int| 0 <= a < b < ch.len() implies nt[#[trigger] ch[a] as int].mv
            != nt[#[trigger] ch[b] as int].mv by {
            assert(copy_of(nt[ch[a] as int], t[o[ch[a] as int] as int]));
            assert(copy_of(nt[ch[b] as int], t[o[ch[b] as int] as int]));
            assert(o[ch[a] as int] == tch[a]);
            assert(o[ch[b] as int] == tch[b]);
        }
        assert forall|k: int| 0 <= k < ch.len() implies !nt[j].untried_mvs@.contains(
            nt[#[trigger] ch[k] as int].mv->Some_0,
        ) by {
            assert(copy_of(nt[ch[k] as int], t[o[ch[k] as int] as int]));
            assert(o[ch[k] as int] == tch[k]);
        }
    }
}

/// A copy of `v`.
fn copy_moves<M: Copy>(v: &Vec<M>) -> (r: Vec<M>)
    ensures
        r@ == v@,
{
    let mut r: Vec<M> = Vec::new();
    let mut i: usize = 0;
    while i < v.len()
        invariant
            i <= v@.len(),
            r@ == v@.subrange(0, i as int),
        decreases v@.len() - i,
    {
        r.push(v[i]);
        i = i + 1;
    }
    assert(r@ =~= v@);
    r
}

/// Every node of a well-formed engine has at least as many visits as wins.
pub proof fn lemma_wins_le_visits<S: GameState>(m: Mcts<S>, i: int)
    requires
        m.wf(),
        0 <= i < m.nodes().len(),
    ensures
        m.nodes()[i].wins <= m.nodes()[i].visits,
{
    assert(node_ok(m.nodes(), i));
}

/// The visits of the first `n` children of node `id`, summed.
pub open spec fn child_visits<S: GameState>(t: Seq<Node<S>>, id: int, n: int) -> int
    decreases n,
{
    if n <= 0 {
        0
    } else {
        child_visits(t, id, n - 1) + t[t[id].child_nodes@[n - 1] as int].visits
    }
}

proof fn lemma_child_visits_nonneg<S: GameState>(t: Seq<Node<S>>, id: int, n: int)
    ensures
        child_visits(t, id, n) >= 0,
    decreases n,
{
    if n > 0 {
        lemma_child_visits_nonneg(t, id, n - 1);
    }
}

/// The visits of all children of node `id`, summed.
pub open spec fn children_visits<S: GameState>(t: Seq<Node<S>>, id: int) -> int {
    child_visits(t, id, t[id].child_nodes@.len() as int)
}

/// How many of the first `n` children of node `id` are ancestors of node `e`.
pub open spec fn children_above<S: GameState>(t: Seq<Node<S>>, id: int, e: int, n: int) -> int
    decreases n,
{
    if n <= 0 {
        0
    } else {
        children_above(t, id, e, n - 1) + if is_ancestor(t, t[id].child_nodes@[n - 1] as int, e) {
            1int
        } else {
            0int
        }
    }
}

proof fn lemma_child_visits_backed<S: GameState>(t1: Seq<Node<S>>, t2: Seq<Node<S>>, id: int, e: int, n: int, winner: Option<S::Player>)
    requires
        backed_up(t1, t2, e, winner),
        0 <= id < t1.len(),
        0 <= n <= t1[id].child_nodes@.len(),
        forall|x: int| 0 <= x < n ==> #[trigger] t1[id].child_nodes@[x] < t1.len(),
    ensures
        child_visits(t2, id, n) == child_visits(t1, id, n) + children_above(t1, id, e, n),
    decreases n,
{
    assert(same_but_counts(t2[id], t1[id]));
    if n > 0 {
        lemma_child_visits_backed(t1, t2, id, e, n - 1, winner);
        let c = t1[id].child_nodes@[n - 1] as int;
        assert(same_but_counts(t2[c], t1[c]));
    }
}

proof fn lemma_children_above_none<S: GameState>(t: Seq<Node<S>>, id: int, e: int, n: int)
    requires
        forall|x: int| 0 <= x < n ==> !is_ancestor(t, #[trigger] t[id].child_nodes@[x] as int, e),
    ensures
        children_above(t, id, e, n) == 0,
    decreases n,
{
    if n > 0 {
        lemma_children_above_none(t, id, e, n - 1);
    }
}

proof fn lemma_children_above_one<S: GameState>(t: Seq<Node<S>>, id: int, e: int, n: int, x0: int)
    requires
        0 <= x0 < n,
        is_ancestor(t, t[id].child_nodes@[x0] as int, e),
        forall|x: int| 0 <= x < n && x != x0 ==> !is_ancestor(t, #[trigger] t[id].child_nodes@[x] as int, e),
    ensures
        children_above(t, id, e, n) == 1,
    decreases n,
{
    if n - 1 == x0 {
        lemma_children_above_none(t, id, e, n - 1);
    } else {
        lemma_children_above_one(t, id, e, n - 1, x0);
    }
}

proof fn lemma_child_visits_same<S: GameState>(t: Seq<Node<S>>, t1: Seq<Node<S>>, id: int, n: int)
    requires
        0 <= n <= t[id].child_nodes@.len(),
        n <= t1[id].child_nodes@.len(),
        forall|x: int|
            0 <= x < n ==> t1[id].child_nodes@[x] == t[id].child_nodes@[x] && t1[t[id].child_nodes@[x] as int].visits
                == t[#[trigger] t[id].child_nodes@[x] as int].visits,
    ensures
        child_visits(t1, id, n) == child_visits(t, id, n),
    decreases n,
{
    if n > 0 {
        lemma_child_visits_same(t, t1, id, n - 1);
    }
}

proof fn lemma_ancestor_chain<S: GameState>(t: Seq<Node<S>>, a: int, b: int, e: int)
    requires
        tree_wf(t),
        0 <= e < t.len(),
        is_ancestor(t, a, e),
        is_ancestor(t, b, e),
        a <= b,
    ensures
        is_ancestor(t, a, b),
    decreases e,
{
    if e != b {
        lemma_ancestor_le(t, b, e);
        if e == a {
        } else {
            assert(node_ok(t, e));
            lemma_ancestor_chain(t, a, b, t[e].parent_node->Some_0 as int);
        }
    }
}

/// Below node `r` there is exactly one child of `r` on the way up from a strict
/// descendant `e` of `r`.
proof fn lemma_one_child_above<S: GameState>(t: Seq<Node<S>>, r: int, e: int, x0: int)
    requires
        tree_wf(t),
        0 <= r < t.len(),
        0 <= e < t.len(),
        0 <= x0 < t[r].child_nodes@.len(),
        is_ancestor(t, t[r].child_nodes@[x0] as int, e),
    ensures
        children_above(t, r, e, t[r].child_nodes@.len() as int) == 1,
{
    let ch = t[r].child_nodes@;
    assert(node_ok(t, r));
    assert forall|x: int| 0 <= x < ch.len() && x != x0 implies !is_ancestor(t, #[trigger] ch[x] as int, e) by {
        if is_ancestor(t, ch[x] as int, e) {
            let (lo, hi) = if ch[x] < ch[x0] { (ch[x] as int, ch[x0] as int) } else { (ch[x0] as int, ch[x] as int) };
            lemma_ancestor_chain(t, lo, hi, e);
            assert(node_ok(t, hi));
            assert(is_ancestor(t, lo, r));
            lemma_ancestor_le(t, lo, r);
        }
    }
    lemma_children_above_one(t, r, e, ch.len() as int, x0);
}

/// Selection takes child `c` at node `p`: the last child of greatest key, a child
/// scoring `score(parent visits, child wins, child visits)`.
pub open spec fn selects<S: GameState, F: Fn(u64, u64, u64) -> u64>(t: Seq<Node<S>>, p: int, c: int, score: &F) -> bool {
    let ch = t[p].child_nodes@;
    exists|keys: Seq<u64>|
        {
            &&& keys.len() == ch.len()
            &&& forall|j: int|
                0 <= j < ch.len() ==> score.ensures(
                    (t[p].visits, t[ch[j] as int].wins, t[ch[j] as int].visits),
                    #[trigger] keys[j],
                )
            &&& c == ch[last_max(keys, ch.len() as int)]
        }
}

/// Selection from `a` reaches `r` along `path`: it starts at `a`, ends at `r`, and each
/// step goes from a node that is fully expanded and has children into the child that
/// `selects` names.
pub open spec fn selection_path<S: GameState, F: Fn(u64, u64, u64) -> u64>(
    t: Seq<Node<S>>,
    a: int,
    r: int,
    path: Seq<int>,
    score: &F,
) -> bool {
    &&& path.len() > 0
    &&& path[0] == a
    &&& path.last() == r
    &&& forall|i: int|
        0 <= i < path.len() - 1 ==> {
            &&& 0 <= #[trigger] path[i] < t.len()
            &&& t[path[i]].untried_mvs@.len() == 0
            &&& t[path[i]].child_nodes@.len() > 0
            &&& selects(t, path[i], path[i + 1], score)
        }
}

/// Arena `t2` is `t` after one search round from node `root` under `score`: selection
/// stops at `sel`, which gains a child by one of its untried moves if it has any; a playout
/// from the expanded node `e` ends in a finished game whose winner is then recorded on `e`
/// and its ancestors.
pub open spec fn round_of<S: GameState, F: Fn(u64, u64, u64) -> u64>(
    t: Seq<Node<S>>,
    t2: Seq<Node<S>>,
    root: int,
    score: &F,
) -> bool {
    exists|sel: int, e: int, t1: Seq<Node<S>>, winner: Option<S::Player>|
        {
            &&& 0 <= sel < t.len()
            &&& exists|path: Seq<int>| selection_path(t, root, sel, path, score)
            &&& t[sel].untried_mvs@.len() != 0 || t[sel].child_nodes@.len() == 0
            &&& if t[sel].untried_mvs@.len() == 0 {
                t1 == t && e == sel
            } else {
                e == t.len() && exists|mv: S::Move|
                    t[sel].untried_mvs@.contains(mv) && expanded_by(t, t1, sel, mv)
            }
            &&& exists|end: S, n: nat|
                reaches(t1[e].state, end, n) && end.moves_spec().len() == 0 && winner == end.winner_spec()
            &&& backed_up(t1, t2, e, winner)
        }
}

proof fn lemma_no_child_by<S: GameState>(t: Seq<Node<S>>, id: int, mv: S::Move, k: int)
    requires
        0 <= k <= t[id].child_nodes@.len(),
        last_child_by(t, id, mv, k) is None,
    ensures
        forall|j: int| 0 <= j < k ==> t[#[trigger] t[id].child_nodes@[j] as int].mv != Some(mv),
    decreases k,
{
    if k > 0 {
        lemma_no_child_by(t, id, mv, k - 1);
    }
}

/// Every node of a well-formed arena descends from node 0.
pub proof fn lemma_descends_from_top<S: GameState>(t: Seq<Node<S>>, j: int)
    requires
        tree_wf(t),
        0 <= j < t.len(),
    ensures
        is_ancestor(t, 0, j),
    decreases j,
{
    assert(node_ok(t, j));
    if j > 0 {
        lemma_descends_from_top(t, t[j].parent_node->Some_0 as int);
    }
}

/// The children of every node of `t` are numbered breadth-first from node 0.
pub open spec fn bfs_laid_out<S: GameState>(t: Seq<Node<S>>) -> bool {
    forall|j: int, x: int|
        0 <= j < t.len() && 0 <= x < t[j].child_nodes@.len() ==> #[trigger] t[j].child_nodes@[x] == bfs_next(t, j) + x
}

proof fn lemma_reroot_identity<S: GameState>(t: Seq<Node<S>>, nt: Seq<Node<S>>, o: Seq<usize>, j: int)
    requires
        tree_wf(t),
        t.len() <= usize::MAX,
        bfs_laid_out(t),
        reroot_inv(t, 0, nt, o, nt.len() as int),
        0 <= j < nt.len(),
    ensures
        forall|i: int| 0 <= i <= j ==> o[i] == i,
    decreases j,
{
    if j > 0 {
        lemma_reroot_identity(t, nt, o, j - 1);
        assert(parent_mapped(t, nt, o, j, nt.len() as int));
        let p = nt[j].parent_node->Some_0 as int;
        assert(nt[p].child_nodes@.contains(j as usize));
        assert(exists|x: int| 0 <= x < nt[p].child_nodes@.len() && nt[p].child_nodes@[x] == j as usize);
        let x = choose|x: int| 0 <= x < nt[p].child_nodes@.len() && nt[p].child_nodes@[x] == j as usize;
        assert(0 <= p < j);
        assert(children_mapped(t, nt, o, p));
        assert(copy_of(nt[p], t[o[p] as int]));
        assert forall|i: int| 0 <= i < p implies (#[trigger] nt[i]).child_nodes@.len() == t[i].child_nodes@.len() by {
            assert(children_mapped(t, nt, o, i));
        }
        lemma_bfs_next_prefix(nt, t, p);
        assert(o[p] == p);
        assert(nt[p].child_nodes@.len() == t[p].child_nodes@.len());
        assert(nt[p].child_nodes@[x] == bfs_next(nt, p) + x);
        assert(t[p].child_nodes@[x] == bfs_next(t, p) + x);
        let c = nt[p].child_nodes@[x];
        assert(c == j);
        assert(o[c as int] == t[o[p] as int].child_nodes@[x]);
        assert(o[j] == t[p].child_nodes@[x]);
    }
}

/// Rerooting at node 0 an arena whose nodes are already numbered breadth-first from node 0
/// gives the same arena back: each node keeps its handle, parent, children, move,
/// statistics, untried moves and state.
pub proof fn lemma_reroot_of_rerooted<S: GameState>(t: Seq<Node<S>>, nt: Seq<Node<S>>)
    requires
        tree_wf(t),
        t.len() <= usize::MAX,
        bfs_laid_out(t),
        rerooted(t, 0, nt),
    ensures
        nt.len() == t.len(),
        forall|j: int|
            0 <= j < nt.len() ==> {
                &&& copy_of(#[trigger] nt[j], t[j])
                &&& nt[j].parent_node == t[j].parent_node
                &&& nt[j].child_nodes@ == t[j].child_nodes@
            },
{
    let o = choose|o: Seq<usize>| reroot_inv(t, 0, nt, o, nt.len() as int);
    lemma_reroot_identity(t, nt, o, nt.len() - 1);
    if nt.len() < t.len() {
        let m = nt.len() as int;
        assert(node_ok(t, m));
        let p = t[m].parent_node->Some_0 as int;
        assert(t[p].child_nodes@.contains(m as usize));
        assert(exists|x: int| 0 <= x < t[p].child_nodes@.len() && t[p].child_nodes@[x] == m as usize);
        let x = choose|x: int| 0 <= x < t[p].child_nodes@.len() && t[p].child_nodes@[x] == m as usize;
        assert(0 <= p < m);
        assert(o[p] == p);
        assert(children_mapped(t, nt, o, p));
        assert(copy_of(nt[p], t[o[p] as int]));
        assert(x < nt[p].child_nodes@.len());
        let c = nt[p].child_nodes@[x];
        assert(o[c as int] == t[o[p] as int].child_nodes@[x]);
        assert(c < nt.len());
        assert(o[c as int] == c);
        assert(t[p].child_nodes@[x] == m);
        assert(o[c as int] == m);
    }
    assert(o.len() <= t.len()) by {
        assert forall|i: int| 0 <= i < o.len() implies o[i] < t.len() by {
            assert(copy_of(nt[i], t[o[i] as int]));
        }
        lemma_distinct_bounded(o, t.len() as int);
    }
    assert forall|j: int| 0 <= j < nt.len() implies {
        &&& copy_of(#[trigger] nt[j], t[j])
        &&& nt[j].parent_node == t[j].parent_node
        &&& nt[j].child_nodes@ == t[j].child_nodes@
    } by {
        assert(copy_of(nt[j], t[o[j] as int]));
        assert(node_ok(t, j));
        if j > 0 {
            assert(parent_mapped(t, nt, o, j, nt.len() as int));
        }
        assert(children_mapped(t, nt, o, j));
        assert forall|i: int| 0 <= i < j implies (#[trigger] nt[i]).child_nodes@.len() == t[i].child_nodes@.len() by {
            assert(children_mapped(t, nt, o, i));
        }
        lemma_bfs_next_prefix(nt, t, j);
        assert(nt[j].child_nodes@ =~= t[j].child_nodes@);
    }
}

/// A node of a well-formed arena has no more children than its state has legal moves.
pub proof fn lemma_children_bounded<S: GameState>(t: Seq<Node<S>>, i: int)
    requires
        tree_wf(t),
        0 <= i < t.len(),
    ensures
        t[i].child_nodes@.len() <= t[i].state.moves_spec().len(),
{
    assert(node_ok(t, i));
    let ch = t[i].child_nodes@;
    let legal = t[i].state.moves_spec();
    let ms = Seq::new(ch.len(), |k: int| t[ch[k] as int].mv->Some_0);
    assert forall|a: int, b: int| 0 <= a < ms.len() && 0 <= b < ms.len() && a != b implies ms[a] != ms[b] by {
        assert(t[ch[a] as int].mv is Some);
        assert(t[ch[b] as int].mv is Some);
        if a < b {
            assert(t[ch[a] as int].mv != t[ch[b] as int].mv);
        } else {
            assert(t[ch[b] as int].mv != t[ch[a] as int].mv);
        }
    }
    ms.unique_seq_to_set();
    legal.lemma_cardinality_of_set();
    seq_to_set_is_finite(legal);
    assert forall|x: S::Move| ms.to_set().contains(x) implies legal.to_set().contains(x) by {
        let k = choose|k: int| 0 <= k < ms.len() && ms[k] == x;
        assert(t[ch[k] as int].mv is Some);
    }
    lemma_len_subset(ms.to_set(), legal.to_set());
}

/// The search engine: an arena of nodes, the handle of the current root and the player
/// that the engine searches for.
pub struct Mcts<S: GameState> {
    /// The node tree.
    tree: Vec<Node<S>>,
    /// The ID of the current root node in the tree vec.
    cur_node_id: usize,
    /// The player that we are working for.
    target_player: S::Player,
}

impl<S: GameState> Mcts<S> {
    /// The arena, by handle.
    pub closed spec fn nodes(&self) -> Seq<Node<S>> {
        self.tree@
    }

    /// The handle of the current root.
    pub closed spec fn root(&self) -> int {
        self.cur_node_id as int
    }

    /// The player that the engine searches for.
    pub closed spec fn target(&self) -> S::Player {
        self.target_player
    }

    /// The state at the current root.
    pub open spec fn root_state(&self) -> S {
        self.nodes()[self.root()].state
    }

    pub open spec fn wf(&self) -> bool {
        &&& tree_wf(self.nodes())
        &&& 0 <= self.root() < self.nodes().len()
    }

    /// The result of advancing the root of `old` by `mv`: the last child of the root reached
    /// by `mv` becomes the root; without one, such a child is added and becomes the root.
    pub open spec fn advanced(old: Mcts<S>, new: Mcts<S>, mv: S::Move) -> bool {
        let t = old.nodes();
        let id = old.root();
        &&& new.target() == old.target()
        &&& match last_child_by(t, id, mv, t[id].child_nodes@.len() as int) {
            Some(c) => new.nodes() == t && new.root() == c,
            None => expanded_by(t, new.nodes(), id, mv) && new.root() == t.len(),
        }
    }

    /// Constructs an engine for `target_player` whose tree holds the one node of `orig_state`.
    pub fn new(target_player: S::Player, orig_state: &S) -> (r: Mcts<S>)
        ensures
            r.wf(),
            r.nodes().len() == 1,
            r.root() == 0,
            r.target() == target_player,
            r.nodes()[0].state == *orig_state,
            r.nodes()[0].mv is None,
            r.nodes()[0].wins == 0,
            r.nodes()[0].visits == 0,
            r.nodes()[0].child_nodes@.len() == 0,
            r.nodes()[0].untried_mvs@ == orig_state.moves_spec(),
    {
        let mut mcts = Mcts { tree: Vec::new(), cur_node_id: 0, target_player };
        mcts.cur_node_id = mcts.push_node(Node::new(None, None, *orig_state));
        assert(node_ok(mcts.nodes(), 0));
        mcts
    }

    /// Updates the root node to reflect an opponent's move.
    pub fn update_opponent_move(&mut self, mv: S::Move)
        requires
            old(self).wf(),
            old(self).root_state().current_spec() != old(self).target(),
            old(self).root_state().moves_spec().contains(mv),
        ensures
            final(self).wf(),
            Mcts::advanced(*old(self), *final(self), mv),
    {
        self.update_move(mv, false);
    }

    /// Updates the root node to reflect the target player's move.
    pub fn update_target_move(&mut self, mv: S::Move)
        requires
            old(self).wf(),
            old(self).root_state().current_spec() == old(self).target(),
            old(self).root_state().moves_spec().contains(mv),
        ensures
            final(self).wf(),
            Mcts::advanced(*old(self), *final(self), mv),
    {
        self.update_move(mv, true);
    }

    /// Moves the root to the child that `mv` leads to, adding that child if it is missing.
    fn update_move(&mut self, mv: S::Move, for_target_player: bool)
        requires
            old(self).wf(),
            for_target_player == (old(self).root_state().current_spec() == old(self).target()),
            old(self).root_state().moves_spec().contains(mv),
        ensures
            final(self).wf(),
            Mcts::advanced(*old(self), *final(self), mv),
    {
        let ghost t = self.tree@;
        let cur = self.cur_node_id;
        // Find the child of the root that matches the move performed; the last one counts.
        let mut next_id: Option<usize> = None;
        let n = self.tree[cur].child_nodes.len();
        let mut k: usize = 0;
        while k < n
            invariant
                k <= n,
                n == t[cur as int].child_nodes@.len(),
                self.tree@ == t,
                self.cur_node_id == cur,
                tree_wf(t),
                cur < t.len(),
                next_id == last_child_by(t, cur as int, mv, k as int),
            decreases n - k,
        {
            let child_id = self.tree[cur].child_nodes[k];
            assert(node_ok(t, cur as int));
            if let Some(m) = self.tree[child_id].mv {
                if S::same_move(&m, &mv) {
                    next_id = Some(child_id);
                }
            }
            k = k + 1;
        }
        match next_id {
            Some(child_id) => {
                proof {
                    lemma_last_child_by(t, cur as int, mv, n as int);
                    assert(node_ok(t, cur as int));
                }
                self.cur_node_id = child_id;
            },
            None => {
                proof {
                    lemma_no_child_by(t, cur as int, mv, n as int);
                }
                self.cur_node_id = self.make_move(cur, mv);
            },
        }
    }

    /// From the given node, creates the child that the legal move `mv` leads to and
    /// returns its ID.
    fn make_move(&mut self, node_id: usize, mv: S::Move) -> (r: usize)
        requires
            tree_wf(old(self).nodes()),
            node_id < old(self).nodes().len(),
            old(self).nodes()[node_id as int].state.moves_spec().contains(mv),
            forall|k: int|
                0 <= k < old(self).nodes()[node_id as int].child_nodes@.len() ==> old(self).nodes()[
                #[trigger] old(self).nodes()[node_id as int].child_nodes@[k] as int].mv != Some(mv),
        ensures
            tree_wf(final(self).nodes()),
            expanded_by(old(self).nodes(), final(self).nodes(), node_id as int, mv),
            r == old(self).nodes().len(),
            final(self).root() == old(self).root(),
            final(self).target() == old(self).target(),
    {
        let ghost t = self.tree@;
        let ghost s0 = self.tree@[node_id as int].state;
        let untried = remove_move::<S>(&self.tree[node_id].untried_mvs, mv);
        proof {
            self.tree@[node_id as int].state.lemma_legal_move_applies(mv);
        }
        let state = self.tree[node_id].state.from_move(mv).unwrap();
        self.tree[node_id].untried_mvs = untried;
        let child_id = self.push_node(Node::new(Some(mv), Some(node_id), state));
        self.tree[node_id].child_nodes.push(child_id);
        proof {
            let t2 = self.tree@;
            assert(node_ok(t, node_id as int));
            let r = t.len() as int;
            let id = node_id as int;
            assert(forall|c: int| 0 <= c < t.len() ==> (#[trigger] t2[c]).mv == t[c].mv);
            assert(t2[id].child_nodes@ == t[id].child_nodes@.push(r as usize));
            assert(t2[id].child_nodes@[t[id].child_nodes@.len() as int] == r);
            assert forall|i: int| 0 <= i < t2.len() implies #[trigger] node_ok(t2, i) by {
                if i > 0 {
                    let p = t2[i].parent_node->Some_0 as int;
                    if i < t.len() {
                        assert(node_ok(t, i));
                        let w = choose|w: int| 0 <= w < t[p].child_nodes@.len() && t[p].child_nodes@[w] == i;
                        if p == id {
                            assert(t2[p].child_nodes@[w] == i);
                        } else {
                            assert(t2[p] == t[p]);
                        }
                    }
                }
                if i < t.len() {
                    assert(node_ok(t, i));
                    let ch = t[i].child_nodes@;
                    if i == node_id {
                        let ch2 = t2[i].child_nodes@;
                        assert forall|a: int, b: int| 0 <= a < b < ch2.len() implies t2[#[trigger] ch2[a] as int].mv
                            != t2[#[trigger] ch2[b] as int].mv by {
                            assert(ch2[a] == ch[a]);
                            if b < ch.len() {
                                assert(ch2[b] == ch[b]);
                            }
                        }
                        assert forall|k: int| 0 <= k < ch2.len() implies !t2[i].untried_mvs@.contains(
                            t2[#[trigger] ch2[k] as int].mv->Some_0,
                        ) by {
                            let m = t2[ch2[k] as int].mv->Some_0;
                            if t2[i].untried_mvs@.contains(m) {
                                let j = choose|j: int| 0 <= j < t2[i].untried_mvs@.len() && t2[i].untried_mvs@[j] == m;
                                lemma_without_subset(t[i].untried_mvs@, mv, m);
                                if k < ch.len() {
                                    assert(ch2[k] == ch[k]);
                                }
                            }
                        }
                    } else {
                        assert(t2[i].child_nodes@ == ch);
                        assert(t2[i].untried_mvs == t[i].untried_mvs);
                    }
                    if i == node_id {
                        assert forall|k: int| 0 <= k < t2[i].untried_mvs@.len() implies t2[i].state.moves_spec().contains(
                            #[trigger] t2[i].untried_mvs@[k],
                        ) by {
                            lemma_without_subset(t[i].untried_mvs@, mv, t2[i].untried_mvs@[k]);
                            let j = choose|j: int| 0 <= j < t[i].untried_mvs@.len() && t[i].untried_mvs@[j] == t2[i].untried_mvs@[k];
                        }
                        assert forall|k: int| 0 <= k < t2[i].child_nodes@.len() implies {
                            let c = #[trigger] t2[i].child_nodes@[k];
                            &&& i < c < t2.len()
                            &&& t2[c as int].parent_node == Some(i as usize)
                            &&& t2[c as int].mv matches Some(m)
                            &&& t2[i].state.moves_spec().contains(m)
                            &&& t2[i].state.applies(m, t2[c as int].state)
                        } by {
                            if k < t[i].child_nodes@.len() {
                                assert(t2[i].child_nodes@[k] == t[i].child_nodes@[k]);
                            }
                        }
                        assert forall|a: int, b: int| 0 <= a < b < t2[i].child_nodes@.len() implies t2[i].child_nodes@[a] != t2[i].child_nodes@[b] by {
                            if b < t[i].child_nodes@.len() {
                                assert(t2[i].child_nodes@[a] == t[i].child_nodes@[a]);
                                assert(t2[i].child_nodes@[b] == t[i].child_nodes@[b]);
                            } else {
                                assert(t2[i].child_nodes@[a] == t[i].child_nodes@[a]);
                            }
                        }
                    } else {
                        assert forall|k: int| 0 <= k < t2[i].child_nodes@.len() implies {
                            let c = #[trigger] t2[i].child_nodes@[k];
                            &&& i < c < t2.len()
                            &&& t2[c as int].parent_node == Some(i as usize)
                            &&& t2[c as int].mv matches Some(m)
                            &&& t2[i].state.moves_spec().contains(m)
                            &&& t2[i].state.applies(m, t2[c as int].state)
                        } by {
                            assert(t2[i].child_nodes@[k] == t[i].child_nodes@[k]);
                        }
                    }
                }
            }
        }
        child_id
    }

    /// Backpropagation: records a playout that ended with `winner` on the given node and
    /// on every ancestor up to the top of the tree.
    fn phase_backprop(&mut self, node_id: usize, winner: Option<S::Player>)
        requires
            tree_wf(old(self).nodes()),
            node_id < old(self).nodes().len(),
            old(self).nodes()[0].visits < u64::MAX,
        ensures
            tree_wf(final(self).nodes()),
            backed_up(old(self).nodes(), final(self).nodes(), node_id as int, winner),
            final(self).root() == old(self).root(),
            final(self).target() == old(self).target(),
    {
        let ghost t = self.tree@;
        let mut cur: usize = node_id;
        let mut done = false;
        while !done
            invariant
                tree_wf(t),
                node_id < t.len(),
                t[0].visits < u64::MAX,
                cur < t.len(),
                is_ancestor(t, cur as int, node_id as int),
                self.cur_node_id == old(self).cur_node_id,
                self.target_player == old(self).target_player,
                !done ==> recorded_on(
                    t,
                    self.tree@,
                    winner,
                    |i: int| is_ancestor(t, i, node_id as int) && !is_ancestor(t, i, cur as int),
                ),
                done ==> backed_up(t, self.tree@, node_id as int, winner),
            decreases cur, if done { 0int } else { 1int },
        {
            proof {
                lemma_visits_le_top(t, cur as int);
                assert(node_ok(t, cur as int));
                assert(same_but_counts(self.tree@[cur as int], t[cur as int]));
            }
            self.tree[cur].update(winner);
            let ghost t2 = self.tree@;
            match self.tree[cur].parent_node {
                Some(p) => {
                    proof {
                        assert forall|i: int| 0 <= i < t.len() implies (is_ancestor(t, i, node_id as int)
                            && !is_ancestor(t, i, p as int)) == ((is_ancestor(t, i, node_id as int)
                            && !is_ancestor(t, i, cur as int)) || i == cur) by {
                            if is_ancestor(t, cur as int, p as int) {
                                lemma_ancestor_le(t, cur as int, p as int);
                            }
                        }
                        lemma_ancestor_of_parent(t, cur as int, node_id as int);
                    }
                    cur = p;
                },
                None => {
                    proof {
                        assert forall|i: int| 0 <= i < t.len() implies is_ancestor(t, i, node_id as int)
                            == ((is_ancestor(t, i, node_id as int) && !is_ancestor(t, i, cur as int)) || i
                            == cur) by {
                        }
                    }
                    done = true;
                },
            }
        }
        proof {
            lemma_backed_up_wf(t, self.tree@, node_id as int, winner);
        }
    }

    /// Selection: from `node_id`, descends into the child of greatest `score` while the
    /// node is fully expanded and has children, and returns where it stops.
    fn phase_selection<F: Fn(u64, u64, u64) -> u64>(&self, node_id: usize, score: &F) -> (r: usize)
        requires
            tree_wf(self.nodes()),
            node_id < self.nodes().len(),
            forall|pv: u64, w: u64, v: u64| score.requires((pv, w, v)),
        ensures
            r < self.nodes().len(),
            is_ancestor(self.nodes(), node_id as int, r as int),
            self.nodes()[r as int].untried_mvs@.len() != 0 || self.nodes()[r as int].child_nodes@.len() == 0,
            r == node_id || exists|x: int|
                0 <= x < self.nodes()[node_id as int].child_nodes@.len() && is_ancestor(
                    self.nodes(),
                    #[trigger] self.nodes()[node_id as int].child_nodes@[x] as int,
                    r as int,
                ),
            exists|path: Seq<int>| selection_path(self.nodes(), node_id as int, r as int, path, score),
    {
        let mut id = node_id;
        let ghost mut path: Seq<int> = seq![node_id as int];
        while self.tree[id].is_fully_expanded() && self.tree[id].has_children()
            invariant
                tree_wf(self.nodes()),
                id < self.nodes().len(),
                is_ancestor(self.nodes(), node_id as int, id as int),
                forall|pv: u64, w: u64, v: u64| score.requires((pv, w, v)),
                id == node_id || exists|x: int|
                    0 <= x < self.nodes()[node_id as int].child_nodes@.len() && is_ancestor(
                        self.nodes(),
                        #[trigger] self.nodes()[node_id as int].child_nodes@[x] as int,
                        id as int,
                    ),
                selection_path(self.nodes(), node_id as int, id as int, path, score),
            decreases self.nodes().len() - id,
        {
            let child = self.select_max_child(id, score);
            proof {
                let prev = id as int;
                let old_path = path;
                path = path.push(child as int);
                assert forall|i: int| 0 <= i < path.len() - 1 implies {
                    &&& 0 <= #[trigger] path[i] < self.nodes().len()
                    &&& self.nodes()[path[i]].untried_mvs@.len() == 0
                    &&& self.nodes()[path[i]].child_nodes@.len() > 0
                    &&& selects(self.nodes(), path[i], path[i + 1], score)
                } by {
                    if i < old_path.len() - 1 {
                        assert(old_path[i] == path[i]);
                        assert(old_path[i + 1] == path[i + 1]);
                    }
                }
                let ch = self.nodes()[id as int].child_nodes@;
                assert(node_ok(self.nodes(), id as int));
                let k = choose|k: int| 0 <= k < ch.len() && ch[k] == child;
                assert(ch[k] == child);
                assert(is_ancestor(self.nodes(), node_id as int, id as int));
                if id == node_id {
                    assert(is_ancestor(self.nodes(), child as int, child as int));
                } else {
                    let x = choose|x: int|
                        0 <= x < self.nodes()[node_id as int].child_nodes@.len() && is_ancestor(
                            self.nodes(),
                            #[trigger] self.nodes()[node_id as int].child_nodes@[x] as int,
                            id as int,
                        );
                    assert(is_ancestor(
                        self.nodes(),
                        self.nodes()[node_id as int].child_nodes@[x] as int,
                        child as int,
                    ));
                }
            }
            id = child;
        }
        proof {
            assert(selection_path(self.nodes(), node_id as int, id as int, path, score));
        }
        id
    }

    /// Returns the last child of `node_id` of greatest `score`, where a child scores
    /// `score(parent visits, child wins, child visits)`.
    fn select_max_child<F: Fn(u64, u64, u64) -> u64>(&self, node_id: usize, score: &F) -> (r: usize)
        requires
            tree_wf(self.nodes()),
            node_id < self.nodes().len(),
            self.nodes()[node_id as int].child_nodes@.len() > 0,
            forall|pv: u64, w: u64, v: u64| score.requires((pv, w, v)),
        ensures
            ({
                let t = self.nodes();
                let ch = t[node_id as int].child_nodes@;
                exists|keys: Seq<u64>|
                    {
                        &&& keys.len() == ch.len()
                        &&& forall|j: int|
                            0 <= j < ch.len() ==> score.ensures(
                                (t[node_id as int].visits, t[ch[j] as int].wins, t[ch[j] as int].visits),
                                #[trigger] keys[j],
                            )
                        &&& r == ch[last_max(keys, ch.len() as int)]
                    }
            }),
            self.nodes()[node_id as int].child_nodes@.contains(r),
            selects(self.nodes(), node_id as int, r as int, score),
    {
        let ghost t = self.tree@;
        let node = &self.tree[node_id];
        let ghost ch = node.child_nodes@;
        proof {
            assert(node_ok(t, node_id as int));
        }
        let n = node.child_nodes.len();
        let first = node.child_nodes[0];
        let mut best: usize = 0;
        let mut best_key: u64 = score(node.visits, self.tree[first].wins, self.tree[first].visits);
        let ghost mut keys: Seq<u64> = seq![best_key];
        let mut i: usize = 1;
        while i < n
            invariant
                1 <= i <= n,
                n == ch.len(),
                ch == t[node_id as int].child_nodes@,
                t == self.nodes(),
                node_id < t.len(),
                *node == t[node_id as int],
                keys.len() == i,
                forall|j: int|
                    0 <= j < i ==> score.ensures(
                        (t[node_id as int].visits, t[ch[j] as int].wins, t[ch[j] as int].visits),
                        #[trigger] keys[j],
                    ),
                forall|pv: u64, w: u64, v: u64| score.requires((pv, w, v)),
                best == last_max(keys, i as int),
                best < i,
                best_key == keys[best as int],
                forall|k: int| 0 <= k < ch.len() ==> ch[k] < t.len(),
            decreases n - i,
        {
            let c = node.child_nodes[i];
            let key = score(node.visits, self.tree[c].wins, self.tree[c].visits);
            proof {
                let old_keys = keys;
                keys = keys.push(key);
                assert(forall|j: int| 0 <= j < i ==> keys[j] == old_keys[j]);
                lemma_last_max_prefix(keys, old_keys, i as int);
                assert(keys[i as int] == key);
                assert(keys[best as int] == best_key);
            }
            if key >= best_key {
                best = i;
                best_key = key;
            }
            i = i + 1;
        }
        proof {
            lemma_last_max(keys, n as int);
        }
        node.child_nodes[best]
    }

    /// Expansion: turns a random untried move of the given node into a child and returns
    /// the child's ID; a node with no untried move is returned as it is.
    fn phase_expansion(&mut self, node_id: usize) -> (r: usize)
        requires
            tree_wf(old(self).nodes()),
            node_id < old(self).nodes().len(),
        ensures
            tree_wf(final(self).nodes()),
            final(self).root() == old(self).root(),
            final(self).target() == old(self).target(),
            if old(self).nodes()[node_id as int].untried_mvs@.len() == 0 {
                final(self).nodes() == old(self).nodes() && r == node_id
            } else {
                r == old(self).nodes().len() && exists|mv: S::Move|
                    old(self).nodes()[node_id as int].untried_mvs@.contains(mv) && expanded_by(
                        old(self).nodes(),
                        final(self).nodes(),
                        node_id as int,
                        mv,
                    )
            },
    {
        match choose_move(&self.tree[node_id].untried_mvs) {
            Some(mv) => {
                proof {
                    let u = self.nodes()[node_id as int].untried_mvs@;
                    assert(node_ok(self.nodes(), node_id as int));
                    let k = choose|k: int| 0 <= k < u.len() && u[k] == mv;
                    assert(u[k] == mv);
                }
                self.make_move(node_id, mv)
            },
            None => node_id,
        }
    }

    /// Rollout: plays uniformly random legal moves from `state` until none is left and
    /// returns the winner of that finished game.
    fn phase_rollout(&self, state: &S) -> (r: Option<S::Player>)
        ensures
            exists|end: S, n: nat|
                reaches(*state, end, n) && end.moves_spec().len() == 0 && r == end.winner_spec(),
    {
        let mut working_state = *state;
        let ghost mut steps: nat = 0;
        let mut done = false;
        while !done
            invariant
                reaches(*state, working_state, steps),
                done ==> working_state.moves_spec().len() == 0,
            decreases working_state.moves_left(), if done { 0int } else { 1int },
        {
            let moves = working_state.get_moves();
            match choose_move(&moves) {
                Some(mv) => {
                    let ghost before = working_state;
                    proof {
                        before.lemma_legal_move_applies(mv);
                    }
                    let _ = working_state.make_move(mv);
                    proof {
                        before.lemma_move_progress(mv, working_state);
                        assert(reaches(*state, before, steps) && before.moves_spec().contains(mv)
                            && before.applies(mv, working_state));
                        steps = steps + 1;
                    }
                },
                None => {
                    done = true;
                },
            }
        }
        working_state.get_winner()
    }

    /// Action selection: the move of the root's child with the greatest win rate, the last
    /// such child on a tie. It is a legal move of the root's state.
    pub fn phase_action_select(&self) -> (r: S::Move)
        requires
            self.wf(),
            self.nodes()[self.root()].child_nodes@.len() > 0,
        ensures
            self.root_state().moves_spec().contains(r),
            ({
                let t = self.nodes();
                let ch = t[self.root()].child_nodes@;
                let best = ch[last_best_rate(t, self.root(), ch.len() as int)] as int;
                &&& Some(r) == t[best].mv
                &&& forall|x: int| 0 <= x < ch.len() ==> rate_le(#[trigger] t[ch[x] as int], t[best])
            }),
    {
        let ghost t = self.tree@;
        let node = self.get_cur_node();
        let ghost id = self.root();
        let ghost ch = node.child_nodes@;
        proof {
            assert(node_ok(t, id));
        }
        let n = node.child_nodes.len();
        let mut best: usize = 0;
        let mut i: usize = 1;
        while i < n
            invariant
                1 <= i <= n,
                n == ch.len(),
                ch == t[id].child_nodes@,
                t == self.nodes(),
                0 <= id < t.len(),
                *node == t[id],
                best == last_best_rate(t, id, i as int),
                best < i,
                forall|k: int| 0 <= k < ch.len() ==> ch[k] < t.len(),
            decreases n - i,
        {
            let b = &self.tree[node.child_nodes[best]];
            let c = &self.tree[node.child_nodes[i]];
            let bv: u128 = if b.visits == 0 { 1 } else { b.visits as u128 };
            let cv: u128 = if c.visits == 0 { 1 } else { c.visits as u128 };
            assert(b.wins as u128 * cv <= u64::MAX as u128 * u64::MAX as u128) by (nonlinear_arith)
                requires b.wins <= u64::MAX, cv <= u64::MAX;
            assert(c.wins as u128 * bv <= u64::MAX as u128 * u64::MAX as u128) by (nonlinear_arith)
                requires c.wins <= u64::MAX, bv <= u64::MAX;
            if b.wins as u128 * cv <= c.wins as u128 * bv {
                best = i;
            }
            i = i + 1;
        }
        let child = &self.tree[node.child_nodes[best]];
        proof {
            assert(node_ok(t, t[id].child_nodes@[best as int] as int));
            assert(t[id].child_nodes@[best as int] == ch[best as int]);
            assert(node_ok(t, id));
            lemma_last_best_rate(t, id, n as int);
        }
        child.mv.unwrap()
    }

    /// Searches until `compute_limit` has passed, after at least one round, then returns
    /// the best move with the number of rounds performed; `None` when the root's game has
    /// ended. The tree is pruned to the root's subtree first. A child scores
    /// `score(parent visits, child wins, child visits)` during selection.
    pub fn select_next_move<F: Fn(u64, u64, u64) -> u64>(
        &mut self,
        compute_limit: std::time::Duration,
        score: &F,
    ) -> (r: Option<(S::Move, u64)>)
        requires
            old(self).wf(),
            old(self).nodes()[old(self).root()].visits < u64::MAX,
            forall|pv: u64, w: u64, v: u64| score.requires((pv, w, v)),
        ensures
            final(self).wf(),
            final(self).root() == 0,
            final(self).target() == old(self).target(),
            final(self).root_state() == old(self).root_state(),
            r is None <==> old(self).root_state().moves_spec().len() == 0,
            r matches Some(p) ==> {
                let t = final(self).nodes();
                let ch = t[0].child_nodes@;
                &&& old(self).root_state().moves_spec().contains(p.0)
                &&& p.1 >= 1
                &&& Some(p.0) == t[ch[last_best_rate(t, 0, ch.len() as int)] as int].mv
                &&& exists|t0: Seq<Node<S>>|
                    rerooted(old(self).nodes(), old(self).root(), t0) && children_visits(t, 0)
                        == children_visits(t0, 0) + p.1
            },
    {
        // Prune out nodes we don't need.
        self.prune_nodes();
        let ghost t0 = self.tree@;
        let limit = nanos_of(&compute_limit);
        let start = clock_now();
        let mut rounds: u64 = 0;
        while (rounds == 0 || nanos_of(&elapsed_since(&start)) < limit) && self.tree[0].visits < u64::MAX
            invariant
                self.wf(),
                self.root() == 0,
                self.target() == old(self).target(),
                self.root_state() == old(self).root_state(),
                self.nodes()[0].visits == t0[0].visits + rounds,
                children_visits(self.nodes(), 0) == children_visits(t0, 0) + if old(self).root_state().moves_spec().len() != 0 {
                    rounds as int
                } else {
                    0int
                },
                forall|pv: u64, w: u64, v: u64| score.requires((pv, w, v)),
            decreases u64::MAX - self.nodes()[0].visits,
        {
            self.search_round(score);
            rounds = rounds + 1;
        }
        if self.tree[0].child_nodes.len() == 0 {
            proof {
                assert(node_ok(self.nodes(), 0));
                if old(self).root_state().moves_spec().len() != 0 {
                    assert(rounds >= 1);
                    assert(children_visits(self.nodes(), 0) == 0);
                    assert(children_visits(t0, 0) >= 0) by {
                        lemma_child_visits_nonneg(t0, 0, t0[0].child_nodes@.len() as int);
                    }
                }
            }
            None
        } else {
            proof {
                assert(node_ok(self.nodes(), 0));
                let ch = self.nodes()[0].child_nodes@;
                assert(self.nodes()[ch[0] as int].mv is Some);
                assert(self.root_state().moves_spec().len() != 0);
            }
            Some((self.phase_action_select(), rounds))
        }
    }

    /// Runs one round of the search: selection from the root by `score`, expansion of one
    /// untried move, a random playout, and backpropagation of its winner. A child scores
    /// `score(parent visits, child wins, child visits)`.
    pub fn search_round<F: Fn(u64, u64, u64) -> u64>(&mut self, score: &F)
        requires
            old(self).wf(),
            old(self).nodes()[0].visits < u64::MAX,
            forall|pv: u64, w: u64, v: u64| score.requires((pv, w, v)),
        ensures
            final(self).wf(),
            final(self).root() == old(self).root(),
            final(self).target() == old(self).target(),
            final(self).root_state() == old(self).root_state(),
            final(self).nodes()[final(self).root()].visits == old(self).nodes()[old(self).root()].visits + 1,
            old(self).nodes().len() <= final(self).nodes().len() <= old(self).nodes().len() + 1,
            children_visits(final(self).nodes(), final(self).root()) == children_visits(
                old(self).nodes(),
                old(self).root(),
            ) + if old(self).root_state().moves_spec().len() != 0 {
                1int
            } else {
                0int
            },
            round_of(old(self).nodes(), final(self).nodes(), old(self).root(), score),
    {
        let ghost t = self.tree@;
        let root = self.cur_node_id;
        let selected = self.phase_selection(root, score);
        let expanded = self.phase_expansion(selected);
        let ghost t1 = self.tree@;
        proof {
            assert(forall|i: int| 0 <= i < t.len() ==> (#[trigger] t1[i]).parent_node == t[i].parent_node);
            lemma_ancestor_same_parents(t, t1, root as int, selected as int);
            if expanded != selected {
                assert(t1[expanded as int].parent_node == Some(selected));
                assert(is_ancestor(t1, root as int, expanded as int));
            }
        }
        let winner = self.phase_rollout(&self.tree[expanded].state);
        self.phase_backprop(expanded, winner);
        proof {
            let t2 = self.tree@;
            assert(0 <= selected < t.len());
            assert(round_of(t, t2, root as int, score)) by {
                assert(backed_up(t1, t2, expanded as int, winner));
            }
            let r = root as int;
            let e = expanded as int;
            let ch = t[r].child_nodes@;
            let ch1 = t1[r].child_nodes@;
            assert(same_but_counts(t2[r], t1[r]));
            assert(node_ok(t, r));
            assert(node_ok(t1, r));
            // The children of the root keep their visits through expansion.
            assert forall|x: int| 0 <= x < ch.len() implies ch1[x] == ch[x] && t1[ch[x] as int].visits
                == t[#[trigger] ch[x] as int].visits by {
                if r == selected as int && expanded != selected {
                    assert(ch1 == ch.push(t.len() as usize));
                }
            }
            lemma_child_visits_same(t, t1, r, ch.len() as int);
            if r == selected as int && expanded != selected {
                assert(ch1 == ch.push(t.len() as usize));
                assert(ch1[ch.len() as int] == expanded);
            }
            assert(child_visits(t1, r, ch1.len() as int) == child_visits(t, r, ch.len() as int));
            lemma_child_visits_backed(t1, t2, r, e, ch1.len() as int, winner);
            // The root's game has moves left exactly when it has untried moves or children.
            assert(node_ok(t, r));
            if t[r].untried_mvs@.len() != 0 {
                assert(t[r].state.moves_spec().contains(t[r].untried_mvs@[0]));
            } else if ch.len() != 0 {
                assert(t[r].state.moves_spec().contains(t[ch[0] as int].mv->Some_0));
            }
            if t[r].state.moves_spec().len() != 0 {
                // The playout ran below the root, through exactly one of its children.
                if r == selected as int {
                    assert(expanded != selected);
                    assert(ch1[ch.len() as int] == expanded);
                    assert(is_ancestor(t1, e, e));
                    lemma_one_child_above(t1, r, e, ch.len() as int);
                } else {
                    let x = choose|x: int|
                        0 <= x < ch.len() && is_ancestor(t, #[trigger] ch[x] as int, selected as int);
                    lemma_ancestor_same_parents(t, t1, ch[x] as int, selected as int);
                    if expanded != selected {
                        assert(t1[e].parent_node == Some(selected));
                    }
                    assert(is_ancestor(t1, ch1[x] as int, e));
                    lemma_one_child_above(t1, r, e, x);
                }
            } else {
                assert forall|x: int| 0 <= x < ch1.len() implies !is_ancestor(t1, #[trigger] ch1[x] as int, e) by {
                }
                lemma_children_above_none(t1, r, e, ch1.len() as int);
            }
        }
    }

    /// Prunes out all nodes that aren't descendants of the current root node: the tree is
    /// rebuilt from the root's subtree alone, with the root as node 0.
    pub fn prune_nodes(&mut self)
        requires
            old(self).wf(),
        ensures
            final(self).wf(),
            final(self).root() == 0,
            final(self).target() == old(self).target(),
            rerooted(old(self).nodes(), old(self).root(), final(self).nodes()),
            final(self).root_state() == old(self).root_state(),
            final(self).nodes()[0].visits == old(self).nodes()[old(self).root()].visits,
            forall|j: int| 0 <= j < final(self).nodes().len() ==> is_ancestor(final(self).nodes(), 0, j),
            bfs_laid_out(final(self).nodes()),
    {
        let ghost t = self.tree@;
        let cur = self.cur_node_id;
        let n = &self.tree[cur];
        let root = Node {
            mv: n.mv,
            parent_node: None,
            child_nodes: Vec::new(),
            wins: n.wins,
            visits: n.visits,
            untried_mvs: copy_moves(&n.untried_mvs),
            state: n.state,
        };
        let mut n_tree: Vec<Node<S>> = Vec::new();
        n_tree.push(root);
        let mut origin: Vec<usize> = Vec::new();
        origin.push(cur);
        let mut k: usize = 0;
        while k < n_tree.len()
            invariant
                tree_wf(t),
                t == self.nodes(),
                cur == self.root(),
                0 <= cur < t.len(),
                reroot_inv(t, cur as int, n_tree@, origin@, k as int),
            decreases t.len() - k,
        {
            self.copy_children_of(k, &mut n_tree, &mut origin);
            k = k + 1;
        }
        proof {
            lemma_rerooted_wf(t, cur as int, n_tree@, origin@);
            assert(reroot_inv(t, cur as int, n_tree@, origin@, n_tree@.len() as int));
            assert(copy_of(n_tree@[0], t[origin@[0] as int]));
        }
        self.tree = n_tree;
        self.cur_node_id = 0;
        proof {
            assert forall|j: int| 0 <= j < self.nodes().len() implies is_ancestor(self.nodes(), 0, j) by {
                lemma_descends_from_top(self.nodes(), j);
            }
        }
    }

    /// Appends copies of the direct children (one level) of new node `c_id` onto the new
    /// tree, records which old node each copies, and links them to `c_id`; `prune_nodes`
    /// calls it on every new node in turn, which copies the whole subtree.
    fn copy_children_of(&self, c_id: usize, n_tree: &mut Vec<Node<S>>, origin: &mut Vec<usize>)
        requires
            tree_wf(self.nodes()),
            0 <= self.root() < self.nodes().len(),
            c_id < old(n_tree)@.len(),
            reroot_inv(self.nodes(), self.root(), old(n_tree)@, old(origin)@, c_id as int),
        ensures
            reroot_inv(self.nodes(), self.root(), final(n_tree)@, final(origin)@, c_id + 1),
    {
        let ghost t = self.tree@;
        let ghost cur = self.root();
        let ghost nt0 = n_tree@;
        let ghost o0 = origin@;
        let base = n_tree.len();
        let old_id = origin[c_id];
        proof {
            assert(copy_of(nt0[c_id as int], t[old_id as int]));
            assert(node_ok(t, old_id as int));
            lemma_ancestor_le(t, cur, old_id as int);
            assert forall|m: int| 0 <= m < o0.len() implies #[trigger] o0[m] < t.len() by {
                assert(copy_of(nt0[m], t[o0[m] as int]));
            }
        }
        let node = &self.tree[old_id];
        let ghost och = node.child_nodes@;
        let n = node.child_nodes.len();
        let mut n_children: Vec<usize> = Vec::new();
        let mut x: usize = 0;
        while x < n
            invariant
                t == self.nodes(),
                tree_wf(t),
                0 <= cur < t.len(),
                *node == t[old_id as int],
                och == node.child_nodes@,
                n == och.len(),
                old_id == o0[c_id as int],
                c_id < base,
                base == nt0.len(),
                reroot_inv(t, cur, nt0, o0, c_id as int),
                cur <= old_id < t.len(),
                is_ancestor(t, cur, old_id as int),
                x <= n,
                n_tree@.len() == base + x,
                origin@.len() == base + x,
                n_tree@.len() <= t.len(),
                origin@.no_duplicates(),
                forall|m: int| 0 <= m < base ==> n_tree@[m] == nt0[m] && origin@[m] == o0[m],
                forall|m: int|
                    base <= m < base + x ==> {
                        &&& copy_of(#[trigger] n_tree@[m], t[origin@[m] as int])
                        &&& origin@[m] == och[m - base]
                        &&& n_tree@[m].parent_node == Some(c_id)
                    },
                forall|m: int| 0 <= m < origin@.len() ==> #[trigger] origin@[m] < t.len(),
                n_children@.len() == x,
                forall|a: int| 0 <= a < x ==> n_children@[a] == base + a,
            decreases n - x,
        {
            let child_id = node.child_nodes[x];
            proof {
                assert(och[x as int] == child_id);
                assert(node_ok(t, old_id as int));
                assert(t[old_id as int].child_nodes@[x as int] == child_id);
                assert(t[child_id as int].parent_node == Some(old_id));
                assert forall|m: int| 0 <= m < origin@.len() implies origin@[m] != child_id by {
                    if m == 0 {
                    } else if m < base {
                        assert(parent_mapped(t, nt0, o0, m, c_id as int));
                        let p = nt0[m].parent_node->Some_0 as int;
                        assert(copy_of(nt0[m], t[o0[m] as int]));
                        if origin@[m] == child_id {
                            assert(o0[p] == old_id);
                        }
                    } else {
                        assert(copy_of(n_tree@[m], t[origin@[m] as int]));
                        assert(origin@[m] == och[m - base]);
                    }
                }
            }
            n_children.push(n_tree.len());
            let c = &self.tree[child_id];
            let copy = Node {
                mv: c.mv,
                parent_node: Some(c_id),
                child_nodes: Vec::new(),
                wins: c.wins,
                visits: c.visits,
                untried_mvs: copy_moves(&c.untried_mvs),
                state: c.state,
            };
            n_tree.push(copy);
            origin.push(child_id);
            proof {
                lemma_distinct_bounded(origin@, t.len() as int);
            }
            x = x + 1;
        }
        n_tree[c_id].child_nodes = n_children;
        proof {
            let nt = n_tree@;
            let o = origin@;
            assert(node_ok(t, old_id as int));
            assert forall|j: int| 0 <= j < nt.len() implies {
                &&& copy_of(#[trigger] nt[j], t[o[j] as int])
                &&& o[j] < t.len()
                &&& is_ancestor(t, cur, o[j] as int)
            } by {
                if j >= base {
                    assert(copy_of(n_tree@[j], t[origin@[j] as int]));
                    assert(och[j - base] == t[old_id as int].child_nodes@[j - base]);
                    assert(t[o[j] as int].parent_node == Some(old_id));
                } else {
                    assert(copy_of(nt0[j], t[o0[j] as int]));
                }
            }
            assert forall|j: int| 0 < j < nt.len() implies #[trigger] parent_mapped(t, nt, o, j, c_id + 1) by {
                if j >= base {
                    assert(copy_of(n_tree@[j], t[origin@[j] as int]));
                    assert(och[j - base] == t[old_id as int].child_nodes@[j - base]);
                    assert(nt[c_id as int].child_nodes@[j - base] == j);
                } else {
                    assert(parent_mapped(t, nt0, o0, j, c_id as int));
                    assert(nt0[j].parent_node == nt[j].parent_node);
                    let p = nt0[j].parent_node->Some_0 as int;
                    assert(nt[p] == nt0[p]);
                }
            }
            assert forall|i: int| 0 <= i < c_id implies (#[trigger] nt[i]).child_nodes@.len() == nt0[i].child_nodes@.len() by {
                assert(nt[i] == nt0[i]);
            }
            lemma_bfs_next_prefix(nt, nt0, c_id as int);
            assert(bfs_next(nt, c_id + 1) == bfs_next(nt, c_id as int) + nt[c_id as int].child_nodes@.len());
            assert forall|j: int, y: int| 0 <= j < c_id + 1 && 0 <= y < nt[j].child_nodes@.len() implies #[trigger] nt[j].child_nodes@[y]
                == bfs_next(nt, j) + y by {
                if j < c_id {
                    assert(nt[j] == nt0[j]);
                    assert(nt0[j].child_nodes@[y] == bfs_next(nt0, j) + y);
                    assert forall|i: int| 0 <= i < j implies (#[trigger] nt[i]).child_nodes@.len() == nt0[i].child_nodes@.len() by {
                        assert(nt[i] == nt0[i]);
                    }
                    lemma_bfs_next_prefix(nt, nt0, j);
                }
            }
            assert forall|j: int| 0 <= j < c_id + 1 implies #[trigger] children_mapped(t, nt, o, j) by {
                if j < c_id {
                    assert(children_mapped(t, nt0, o0, j));
                    assert forall|y: int| 0 <= y < nt[j].child_nodes@.len() implies {
                        let c = #[trigger] nt[j].child_nodes@[y];
                        &&& j < c < nt.len()
                        &&& nt[c as int].parent_node == Some(j as usize)
                        &&& o[c as int] == t[o[j] as int].child_nodes@[y]
                    } by {
                        let c = nt0[j].child_nodes@[y];
                        assert(nt0[c as int].parent_node == nt[c as int].parent_node);
                    }
                } else {
                    assert forall|y: int| 0 <= y < nt[j].child_nodes@.len() implies {
                        let c = #[trigger] nt[j].child_nodes@[y];
                        &&& j < c < nt.len()
                        &&& nt[c as int].parent_node == Some(j as usize)
                        &&& o[c as int] == t[o[j] as int].child_nodes@[y]
                    } by {
                    }
                }
            }
        }
    }

    /// Pushes the given node onto the tree and returns its ID.
    fn push_node(&mut self, node: Node<S>) -> (r: usize)
        ensures
            final(self).nodes() == old(self).nodes().push(node),
            r == old(self).nodes().len(),
            final(self).root() == old(self).root(),
            final(self).target() == old(self).target(),
    {
        let id = self.tree.len();
        self.tree.push(node);
        id
    }

    /// Returns a reference to the current root node.
    pub fn get_cur_node(&self) -> (r: &Node<S>)
        requires
            self.wf(),
        ensures
            *r == self.nodes()[self.root()],
    {
        self.get_node(self.cur_node_id)
    }

    /// Returns a reference to the given node.
    pub fn get_node(&self, node_id: usize) -> (r: &Node<S>)
        requires
            node_id < self.nodes().len(),
        ensures
            *r == self.nodes()[node_id as int],
    {
        &self.tree[node_id]
    }

    /// The handle of the current root.
    pub fn get_cur_node_id(&self) -> (r: usize)
        ensures
            r == self.root(),
    {
        self.cur_node_id
    }

    /// The player that the engine searches for.
    pub fn get_target_player(&self) -> (r: S::Player)
        ensures
            r == self.target(),
    {
        self.target_player
    }

    /// The number of nodes in the arena.
    pub fn tree_len(&self) -> (r: usize)
        ensures
            r == self.nodes().len(),
    {
        self.tree.len()
    }
}

} // verus!
