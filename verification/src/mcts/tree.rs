//! The search tree: an arena of nodes addressed by stable indices.
//!
//! Children are created after their parents, so a parent's index is
//! always below its child's; the back link is a plain index and the walk
//! to the root during backpropagation strictly descends.  Advancing the
//! root to a child keeps the whole arena allocated — the abandoned
//! sibling subtrees simply become unreachable from the new root — while
//! the statistics gathered under the kept child survive across turns.

use vstd::prelude::*;
use vstd::seq_lib::*;
use crate::game::game_state::{State, UTTTResult, lemma_in_play_has_legal_action};
use crate::game::game_action::Action;
use crate::game::player::Player;
use crate::mcts::node::{MctsNode, ln_fp, spec_uct, spec_ln_fp};
use crate::numeric::lemma_word_product_fits;
use crate::rng::Rng;
use crate::clock::elapsed_nanos;

verus! {

/// The search tree: the arena and the index of the current root.
pub struct MctsTree {
    pub nodes: Vec<MctsNode>,
    pub root: usize,
}

/// Whether some child entry of the node is keyed by the action.
pub open spec fn child_action(n: MctsNode, a: Action) -> bool {
    exists|c: int| 0 <= c < n.children@.len() && (#[trigger] n.children@[c]).0 == a
}

/// Whether `j` lies on the parent chain from `i` to the root, `i`
/// included.
pub open spec fn on_chain(nodes: Seq<MctsNode>, i: int, j: int) -> bool
    decreases i,
{
    if i == j {
        true
    } else {
        match nodes[i].parent {
            Option::Some(p) => if 0 <= p < i {
                on_chain(nodes, p as int, j)
            } else {
                false
            },
            Option::None => false,
        }
    }
}

/// A visit count after one more visit, held at the top of the range.
pub open spec fn bumped_visits(v: u64) -> u64 {
    if v == u64::MAX {
        v
    } else {
        (v + 1) as u64
    }
}

/// A reward total after one more reward, held at the top of the range.
pub open spec fn bumped_wins(w: u64, d: u64) -> u64 {
    if w + d > u64::MAX {
        u64::MAX
    } else {
        (w + d) as u64
    }
}

/// Whether the empirical win rate of node `i` is at most that of `j`,
/// compared exactly by cross-multiplication.
pub open spec fn win_rate_le(nodes: Seq<MctsNode>, i: int, j: int) -> bool {
    nodes[i].wins * nodes[j].visits <= nodes[j].wins * nodes[i].visits
}

/// A chain member below the start: the chain only descends.
proof fn lemma_chain_descends(nodes: Seq<MctsNode>, i: int, j: int)
    requires
        on_chain(nodes, i, j),
    ensures
        j <= i,
    decreases i,
{
    if i != j {
        match nodes[i].parent {
            Option::Some(p) => {
                if 0 <= p < i {
                    lemma_chain_descends(nodes, p as int, j);
                }
            },
            Option::None => {
            },
        }
    }
}

/// Chains only read parent links: two arenas with the same links carry
/// the same chains.
proof fn lemma_chain_parents_agree(a: Seq<MctsNode>, b: Seq<MctsNode>, i: int, j: int)
    requires
        0 <= i,
        forall|k: int| 0 <= k <= i ==> a[k].parent == b[k].parent,
        on_chain(a, i, j),
    ensures
        on_chain(b, i, j),
    decreases i,
{
    if i != j {
        match a[i].parent {
            Option::Some(p) => {
                if 0 <= p < i {
                    lemma_chain_parents_agree(a, b, p as int, j);
                }
            },
            Option::None => {
            },
        }
    }
}

/// Stepping from a chain's end to its parent keeps the chain.
proof fn lemma_chain_next(nodes: Seq<MctsNode>, i: int, j: int, p: usize)
    requires
        on_chain(nodes, i, j),
        nodes[j].parent == Option::Some(p),
        p < j,
    ensures
        on_chain(nodes, i, p as int),
    decreases i,
{
    if i == j {
        assert(on_chain(nodes, p as int, p as int)) by {
            reveal_with_fuel(on_chain, 2);
        }
        assert(on_chain(nodes, i, p as int)) by {
            reveal_with_fuel(on_chain, 2);
        }
    } else {
        match nodes[i].parent {
            Option::Some(q) => {
                if 0 <= q < i {
                    lemma_chain_next(nodes, q as int, j, p);
                }
            },
            Option::None => {
            },
        }
    }
}

/// The chain from a node is that node followed by the chain from its
/// parent.
proof fn lemma_chain_split(nodes: Seq<MctsNode>, i: int, p: usize, j: int)
    requires
        nodes[i].parent == Option::Some(p),
        p < i,
        on_chain(nodes, i, j),
        !on_chain(nodes, p as int, j),
    ensures
        j == i,
{
    if j != i {
        assert(on_chain(nodes, p as int, j)) by {
            reveal_with_fuel(on_chain, 2);
        }
        assert(false);
    }
}

impl MctsTree {
    /// Well-formedness of one node of the arena: a well-formed position,
    /// defined statistics, a parent below it, children above it that
    /// point back and whose positions are the parent's position with the
    /// keying action applied, a
    /// duplicate-free frontier disjoint from the children, and — while
    /// the position is in play — children and frontier together covering
    /// the legal moves exactly.  A decided position is a leaf: no
    /// frontier, no children.
    pub open spec fn node_wf(self, i: int) -> bool {
        let n = self.nodes@[i];
        &&& n.state.wf()
        &&& n.visits >= 1
        &&& n.wins <= 2 * n.visits
        &&& match n.parent {
            Option::Some(p) => p < i,
            Option::None => true,
        }
        &&& forall|c: int|
            0 <= c < n.children@.len() ==> i < (#[trigger] n.children@[c]).1 < self.nodes@.len()
                && self.nodes@[n.children@[c].1 as int].parent == Option::Some(i as usize)
                && self.nodes@[n.children@[c].1 as int].state.last_action == Option::Some(
                n.children@[c].0,
            ) && State::spec_apply(
                n.state,
                n.children@[c].0,
                self.nodes@[n.children@[c].1 as int].state,
            )
        &&& forall|c1: int, c2: int|
            0 <= c1 < n.children@.len() && 0 <= c2 < n.children@.len() && c1 != c2 ==> (
            #[trigger] n.children@[c1]).0 != (#[trigger] n.children@[c2]).0
        &&& n.unvisited_actions@.no_duplicates()
        &&& forall|c: int|
            0 <= c < n.children@.len() ==> !n.unvisited_actions@.contains(
                (#[trigger] n.children@[c]).0,
            )
        &&& (n.state.result == UTTTResult::InPlay ==> forall|a: Action|
            (n.unvisited_actions@.contains(a) || child_action(n, a)) <==> #[trigger] n.state.action_legal(
                a,
            ))
        &&& (n.state.result != UTTTResult::InPlay ==> n.unvisited_actions@.len() == 0
            && n.children@.len() == 0)
        &&& (n.expanded ==> n.unvisited_actions@.len() == 0)
    }

    /// Well-formedness of the whole tree.
    pub open spec fn wf(self) -> bool {
        &&& 1 <= self.nodes@.len()
        &&& self.root < self.nodes@.len()
        &&& forall|i: int| 0 <= i < self.nodes@.len() ==> self.node_wf(i)
    }

    /// A tree of one root node holding the given position.
    pub fn new(state: State) -> (r: MctsTree)
        requires
            state.wf(),
        ensures
            r.wf(),
            r.root == 0,
            r.nodes@.len() == 1,
            r.nodes@[0].state == state,
            r.nodes@[0].wins == 0,
            r.nodes@[0].visits == 1,
    {
        let node = MctsNode::new(state);
        let mut nodes: Vec<MctsNode> = Vec::new();
        nodes.push(node);
        let r = MctsTree { nodes, root: 0 };
        proof {
            assert(r.node_wf(0)) by {
                let n = r.nodes@[0];
                if n.state.result == UTTTResult::InPlay {
                    assert forall|a: Action| (n.unvisited_actions@.contains(a) || child_action(
                        n,
                        a,
                    )) <==> #[trigger] n.state.action_legal(a) by {
                        assert(!child_action(n, a));
                    }
                } else {
                    assert(n.unvisited_actions@.len() == 0) by {
                        if n.unvisited_actions@.len() > 0 {
                            assert(n.unvisited_actions@.contains(n.unvisited_actions@[0]));
                        }
                    }
                }
            }
        }
        r
    }

    /// Pops one unexpanded action of node `i` (the most recently listed
    /// first), applies it to the node's position, and files the new child
    /// in the arena; reports nothing when the frontier is empty.
    fn expand_next(&mut self, i: usize) -> (r: Option<usize>)
        requires
            old(self).wf(),
            i < old(self).nodes@.len(),
        ensures
            final(self).wf(),
            final(self).root == old(self).root,
            final(self).nodes@.len() >= old(self).nodes@.len(),
            forall|j: int|
                0 <= j < old(self).nodes@.len() ==> {
                    &&& (#[trigger] final(self).nodes@[j]).state == old(self).nodes@[j].state
                    &&& final(self).nodes@[j].wins == old(self).nodes@[j].wins
                    &&& final(self).nodes@[j].visits == old(self).nodes@[j].visits
                    &&& final(self).nodes@[j].parent == old(self).nodes@[j].parent
                    &&& final(self).nodes@[j].expanded == old(self).nodes@[j].expanded
                    &&& (j != i ==> final(self).nodes@[j].unvisited_actions@ == old(
                        self,
                    ).nodes@[j].unvisited_actions@ && final(self).nodes@[j].children@ == old(
                        self,
                    ).nodes@[j].children@)
                },
            match r {
                Option::Some(c) => {
                    &&& old(self).nodes@[i as int].unvisited_actions@.len() > 0
                    &&& c == old(self).nodes@.len()
                    &&& final(self).nodes@.len() == old(self).nodes@.len() + 1
                    &&& final(self).nodes@[c as int].parent == Option::Some(i)
                    &&& final(self).nodes@[c as int].visits == 1
                    &&& final(self).nodes@[c as int].wins == 0
                    &&& final(self).nodes@[i as int].unvisited_actions@ == old(
                        self,
                    ).nodes@[i as int].unvisited_actions@.drop_last()
                    &&& final(self).nodes@[i as int].children@ == old(
                        self,
                    ).nodes@[i as int].children@.push(
                        (
                            old(self).nodes@[i as int].unvisited_actions@.last(),
                            old(self).nodes@.len() as usize,
                        ),
                    )
                    &&& final(self).nodes@[c as int].state.last_action == Option::Some(
                        old(self).nodes@[i as int].unvisited_actions@.last(),
                    )
                    &&& State::spec_apply(
                        old(self).nodes@[i as int].state,
                        old(self).nodes@[i as int].unvisited_actions@.last(),
                        final(self).nodes@[c as int].state,
                    )
                },
                Option::None => {
                    &&& old(self).nodes@[i as int].unvisited_actions@.len() == 0
                    &&& final(self).nodes@.len() == old(self).nodes@.len()
                    &&& final(self).nodes@[i as int].unvisited_actions@ == old(
                        self,
                    ).nodes@[i as int].unvisited_actions@
                    &&& final(self).nodes@[i as int].children@ == old(
                        self,
                    ).nodes@[i as int].children@
                },
            },
    {
        let ghost pre = *old(self);
        let popped = self.nodes[i].unvisited_actions.pop();
        match popped {
            Option::None => {
                proof {
                    assert forall|j: int| 0 <= j < self.nodes@.len() implies self.node_wf(j) by {
                        assert(pre.node_wf(j));
                        if j != i {
                            assert(self.nodes@[j] == pre.nodes@[j]);
                        }
                    }
                }
                Option::None
            },
            Option::Some(a) => {
                proof {
                    assert(pre.node_wf(i as int));
                    let n = pre.nodes@[i as int];
                    assert(n.unvisited_actions@.contains(a)) by {
                        assert(n.unvisited_actions@.last() == a);
                    }
                    assert(n.state.result == UTTTResult::InPlay);
                    assert(n.state.action_legal(a));
                }
                let child_state = self.nodes[i].state.perform_action_copy(&a);
                let c = self.nodes.len();
                let child = MctsNode::create_child(child_state, i);
                self.nodes.push(child);
                self.nodes[i].children.push((a, c));
                proof {
                    self.lemma_expand_wf(pre, i as int, a, c);
                }
                Option::Some(c)
            },
        }
    }

    /// After one expansion the tree is still well formed.
    proof fn lemma_expand_wf(self, pre: MctsTree, i: int, a: Action, c: usize)
        requires
            pre.wf(),
            0 <= i < pre.nodes@.len(),
            pre.nodes@[i].unvisited_actions@.len() > 0,
            a == pre.nodes@[i].unvisited_actions@.last(),
            c as int == pre.nodes@.len(),
            self.root == pre.root,
            self.nodes@.len() == pre.nodes@.len() + 1,
            forall|j: int|
                0 <= j < pre.nodes@.len() && j != i ==> self.nodes@[j] == pre.nodes@[j],
            self.nodes@[i].state == pre.nodes@[i].state,
            self.nodes@[i].parent == pre.nodes@[i].parent,
            self.nodes@[i].expanded == pre.nodes@[i].expanded,
            self.nodes@[i].wins == pre.nodes@[i].wins,
            self.nodes@[i].visits == pre.nodes@[i].visits,
            self.nodes@[i].unvisited_actions@ == pre.nodes@[i].unvisited_actions@.drop_last(),
            self.nodes@[i].children@ == pre.nodes@[i].children@.push((a, c)),
            self.nodes@[c as int].parent == Option::Some(i as usize),
            self.nodes@[c as int].children@.len() == 0,
            self.nodes@[c as int].unvisited_actions@.no_duplicates(),
            self.nodes@[c as int].visits == 1,
            self.nodes@[c as int].wins == 0,
            self.nodes@[c as int].expanded == false,
            self.nodes@[c as int].state.wf(),
            State::spec_apply(pre.nodes@[i].state, a, self.nodes@[c as int].state),
            forall|b: Action| #[trigger]
                self.nodes@[c as int].unvisited_actions@.contains(b) <==> (self.nodes@[c as int].state.result
                    == UTTTResult::InPlay && self.nodes@[c as int].state.action_legal(b)),
        ensures
            self.wf(),
    {
        let pn = pre.nodes@[i];
        let nn = self.nodes@[i];
        assert(pre.node_wf(i));
        assert(pn.unvisited_actions@.contains(a)) by {
            assert(pn.unvisited_actions@.last() == a);
        }
        assert(pn.state.result == UTTTResult::InPlay);
        // the node that expanded
        assert(self.node_wf(i)) by {
            assert forall|k: int| 0 <= k < nn.children@.len() implies i < (
            #[trigger] nn.children@[k]).1 < self.nodes@.len() && self.nodes@[nn.children@[k].1
                as int].parent == Option::Some(i as usize) && self.nodes@[nn.children@[k].1
                as int].state.last_action == Option::Some(nn.children@[k].0) && State::spec_apply(
                nn.state,
                nn.children@[k].0,
                self.nodes@[nn.children@[k].1 as int].state,
            ) by {
                if k < pn.children@.len() {
                    assert(nn.children@[k] == pn.children@[k]);
                    assert(pre.node_wf(i));
                    assert(i < pn.children@[k].1 < pre.nodes@.len());
                    let t = pn.children@[k].1 as int;
                    assert(t != i);
                    assert(self.nodes@[t] == pre.nodes@[t]);
                    assert(self.nodes@[t].parent == Option::Some(i as usize));
                    assert(self.nodes@[t].state.last_action == Option::Some(pn.children@[k].0));
                    assert(nn.state == pn.state);
                    assert(State::spec_apply(pn.state, pn.children@[k].0, pre.nodes@[t].state));
                } else {
                    assert(nn.children@[k] == (a, c));
                    assert(self.nodes@[c as int].parent == Option::Some(i as usize));
                    assert(self.nodes@[c as int].state.last_action == Option::Some(a));
                    assert(State::spec_apply(nn.state, a, self.nodes@[c as int].state));
                }
            }
            assert forall|c1: int, c2: int|
                0 <= c1 < nn.children@.len() && 0 <= c2 < nn.children@.len() && c1
                    != c2 implies (#[trigger] nn.children@[c1]).0 != (
            #[trigger] nn.children@[c2]).0 by {
                if c1 < pn.children@.len() && c2 == pn.children@.len() {
                    assert(nn.children@[c2].0 == a);
                    assert(!pn.unvisited_actions@.contains(pn.children@[c1].0));
                } else if c2 < pn.children@.len() && c1 == pn.children@.len() {
                    assert(nn.children@[c1].0 == a);
                    assert(!pn.unvisited_actions@.contains(pn.children@[c2].0));
                }
            }
            assert(nn.unvisited_actions@.no_duplicates()) by {
                assert(pn.unvisited_actions@.no_duplicates());
                assert forall|p: int, q: int|
                    0 <= p < nn.unvisited_actions@.len() && 0 <= q < nn.unvisited_actions@.len()
                        && p != q implies nn.unvisited_actions@[p] != nn.unvisited_actions@[q] by {
                    assert(nn.unvisited_actions@[p] == pn.unvisited_actions@[p]);
                    assert(nn.unvisited_actions@[q] == pn.unvisited_actions@[q]);
                }
            }
            assert forall|k: int| 0 <= k < nn.children@.len() implies !nn.unvisited_actions@.contains(
                (#[trigger] nn.children@[k]).0,
            ) by {
                if nn.unvisited_actions@.contains(nn.children@[k].0) {
                    let p = choose|p: int|
                        0 <= p < nn.unvisited_actions@.len() && nn.unvisited_actions@[p]
                            == nn.children@[k].0;
                    assert(pn.unvisited_actions@[p] == nn.children@[k].0);
                    assert(pn.unvisited_actions@.contains(nn.children@[k].0));
                    if k < pn.children@.len() {
                        assert(nn.children@[k] == pn.children@[k]);
                        assert(false);
                    } else {
                        // the popped action would appear twice in the frontier
                        assert(nn.children@[k].0 == a);
                        assert(pn.unvisited_actions@[pn.unvisited_actions@.len() - 1] == a);
                        assert(p < pn.unvisited_actions@.len() - 1);
                        assert(false);
                    }
                }
            }
            assert forall|b: Action| (nn.unvisited_actions@.contains(b) || child_action(nn, b))
                <==> #[trigger] nn.state.action_legal(b) by {
                assert((pn.unvisited_actions@.contains(b) || child_action(pn, b))
                    <==> pn.state.action_legal(b));
                if b == a {
                    assert(child_action(nn, b)) by {
                        assert(nn.children@[pn.children@.len() as int].0 == a);
                    }
                    assert(nn.state.action_legal(b));
                } else {
                    assert(nn.unvisited_actions@.contains(b) <==> pn.unvisited_actions@.contains(
                        b,
                    )) by {
                        if pn.unvisited_actions@.contains(b) {
                            let p = choose|p: int|
                                0 <= p < pn.unvisited_actions@.len() && pn.unvisited_actions@[p]
                                    == b;
                            assert(p < pn.unvisited_actions@.len() - 1);
                            assert(nn.unvisited_actions@[p] == b);
                        }
                        if nn.unvisited_actions@.contains(b) {
                            let p = choose|p: int|
                                0 <= p < nn.unvisited_actions@.len() && nn.unvisited_actions@[p]
                                    == b;
                            assert(pn.unvisited_actions@[p] == b);
                        }
                    }
                    assert(child_action(nn, b) <==> child_action(pn, b)) by {
                        if child_action(pn, b) {
                            let k = choose|k: int|
                                0 <= k < pn.children@.len() && pn.children@[k].0 == b;
                            assert(nn.children@[k].0 == b);
                        }
                        if child_action(nn, b) {
                            let k = choose|k: int|
                                0 <= k < nn.children@.len() && nn.children@[k].0 == b;
                            assert(k < pn.children@.len());
                            assert(pn.children@[k].0 == b);
                        }
                    }
                }
            }
        }
        // the new child
        assert(self.node_wf(c as int)) by {
            let n = self.nodes@[c as int];
            if n.state.result == UTTTResult::InPlay {
                assert forall|b: Action| (n.unvisited_actions@.contains(b) || child_action(n, b))
                    <==> #[trigger] n.state.action_legal(b) by {
                    assert(!child_action(n, b));
                }
            } else {
                assert(n.unvisited_actions@.len() == 0) by {
                    if n.unvisited_actions@.len() > 0 {
                        assert(n.unvisited_actions@.contains(n.unvisited_actions@[0]));
                    }
                }
            }
        }
        // everything else
        assert forall|j: int| 0 <= j < self.nodes@.len() implies self.node_wf(j) by {
            if j != i && j != c as int {
                assert(pre.node_wf(j));
                assert(self.nodes@[j] == pre.nodes@[j]);
                let n = self.nodes@[j];
                assert forall|k: int| 0 <= k < n.children@.len() implies j < (
                #[trigger] n.children@[k]).1 < self.nodes@.len() && self.nodes@[n.children@[k].1
                    as int].parent == Option::Some(j as usize) && self.nodes@[n.children@[k].1
                    as int].state.last_action == Option::Some(n.children@[k].0) by {
                    let t = n.children@[k].1 as int;
                    assert(t < pre.nodes@.len());
                    if t != i {
                        assert(self.nodes@[t] == pre.nodes@[t]);
                    }
                }
            }
        }
    }

    /// Marks a node whose frontier is exhausted as fully expanded.
    fn mark_expanded(&mut self, i: usize)
        requires
            old(self).wf(),
            i < old(self).nodes@.len(),
            old(self).nodes@[i as int].unvisited_actions@.len() == 0,
        ensures
            final(self).wf(),
            final(self).root == old(self).root,
            final(self).nodes@.len() == old(self).nodes@.len(),
            final(self).nodes@[i as int].expanded == true,
            forall|j: int|
                0 <= j < old(self).nodes@.len() ==> {
                    &&& (#[trigger] final(self).nodes@[j]).state == old(self).nodes@[j].state
                    &&& final(self).nodes@[j].wins == old(self).nodes@[j].wins
                    &&& final(self).nodes@[j].visits == old(self).nodes@[j].visits
                    &&& final(self).nodes@[j].parent == old(self).nodes@[j].parent
                    &&& final(self).nodes@[j].unvisited_actions@ == old(
                        self,
                    ).nodes@[j].unvisited_actions@
                    &&& final(self).nodes@[j].children@ == old(self).nodes@[j].children@
                    &&& (j != i ==> final(self).nodes@[j].expanded == old(self).nodes@[j].expanded)
                },
    {
        let ghost pre = *old(self);
        self.nodes[i].expanded = true;
        proof {
            assert forall|j: int| 0 <= j < self.nodes@.len() implies self.node_wf(j) by {
                assert(pre.node_wf(j));
                if j != i {
                    assert(self.nodes@[j] == pre.nodes@[j]);
                }
            }
        }
    }

    /// The UCT selection score of node `i` under a parent whose
    /// log-visits are `ln`.
    pub open spec fn uct_of(self, i: int, ln: u64) -> int {
        spec_uct(self.nodes@[i].wins, self.nodes@[i].visits, ln)
    }

    /// The child of node `i` with the highest UCT selection score under
    /// `i`'s log-visits; ties go to the latest-created child.
    fn best_uct_child(&self, i: usize) -> (r: usize)
        requires
            self.wf(),
            i < self.nodes@.len(),
            self.nodes@[i as int].children@.len() > 0,
        ensures
            r < self.nodes@.len(),
            ({
                let ch = self.nodes@[i as int].children@;
                let ln = spec_ln_fp(self.nodes@[i as int].visits as nat) as u64;
                exists|c: int|
                    #![trigger ch[c]]
                    0 <= c < ch.len() && ch[c].1 == r && (forall|j: int|
                        0 <= j < ch.len() ==> self.uct_of((#[trigger] ch[j]).1 as int, ln)
                            <= self.uct_of(ch[c].1 as int, ln)) && (forall|j: int|
                        c < j < ch.len() ==> self.uct_of((#[trigger] ch[j]).1 as int, ln)
                            < self.uct_of(ch[c].1 as int, ln))
            }),
    {
        proof {
            assert(self.node_wf(i as int));
        }
        let parent_ln = ln_fp(self.nodes[i].visits);
        let ghost ch = self.nodes@[i as int].children@;
        let ghost ln = parent_ln;
        let mut pos: usize = 0;
        let mut best = self.nodes[i].children[0].1;
        proof {
            assert(self.node_wf(best as int));
        }
        let mut best_score = self.nodes[best].uct(parent_ln);
        let mut ci: usize = 1;
        while ci < self.nodes[i].children.len()
            invariant
                self.wf(),
                i < self.nodes@.len(),
                ch == self.nodes@[i as int].children@,
                ln == spec_ln_fp(self.nodes@[i as int].visits as nat) as u64,
                ln == parent_ln,
                parent_ln <= 2862838,
                pos < ci <= ch.len(),
                best == ch[pos as int].1,
                best < self.nodes@.len(),
                best_score == self.uct_of(best as int, ln),
                forall|j: int|
                    0 <= j < ci ==> self.uct_of((#[trigger] ch[j]).1 as int, ln) <= best_score,
                forall|j: int|
                    pos < j < ci ==> self.uct_of((#[trigger] ch[j]).1 as int, ln) < best_score,
            decreases ch.len() - ci,
        {
            let c = self.nodes[i].children[ci].1;
            proof {
                assert(self.node_wf(i as int));
                assert(self.node_wf(c as int));
            }
            let sc = self.nodes[c].uct(parent_ln);
            if best_score > sc {
            } else {
                best = c;
                best_score = sc;
                pos = ci;
            }
            ci += 1;
        }
        proof {
            assert(ch[pos as int].1 == best);
        }
        best
    }

    /// One descent from the root: while a node on the path still has
    /// unexpanded actions, the most recently listed one is popped and
    /// applied, and the new child is the selection — one action consumed
    /// per call; a fully expanded node hands the descent to the child of
    /// highest UCT score (ties go to the latest-created child); a leaf,
    /// or exhausting the depth allowance, ends the descent.
    #[verifier::loop_isolation(false)]
    pub fn select(&mut self, depth: usize) -> (r: usize)
        requires
            old(self).wf(),
        ensures
            final(self).wf(),
            final(self).root == old(self).root,
            r < final(self).nodes@.len(),
            final(self).nodes@.len() >= old(self).nodes@.len(),
            on_chain(final(self).nodes@, r as int, final(self).root as int),
            forall|j: int|
                0 <= j < old(self).nodes@.len() ==> {
                    &&& (#[trigger] final(self).nodes@[j]).state == old(self).nodes@[j].state
                    &&& final(self).nodes@[j].wins == old(self).nodes@[j].wins
                    &&& final(self).nodes@[j].visits == old(self).nodes@[j].visits
                    &&& final(self).nodes@[j].parent == old(self).nodes@[j].parent
                },
            // a spent depth allowance selects the root and changes nothing
            depth == 0 ==> r == old(self).root && *final(self) == *old(self),
            // a decided leaf at the root is selected unchanged
            (old(self).nodes@[old(self).root as int].expanded && old(self).nodes@[old(
                self,
            ).root as int].children@.len() == 0) ==> r == old(self).root && *final(self) == *old(
                self,
            ),
            // at most one action is consumed per call
            final(self).nodes@.len() <= old(self).nodes@.len() + 1,
            // when one was: some node of the path popped its most recent
            // unexpanded action, the new child is that action applied to
            // that node's position, and it is the selection
            final(self).nodes@.len() == old(self).nodes@.len() + 1 ==> r == old(self).nodes@.len()
                && (exists|p: int|
                #![auto]
                0 <= p < old(self).nodes@.len() && final(self).nodes@[r as int].parent
                    == Option::Some(p as usize) && old(self).nodes@[p].unvisited_actions@.len() > 0
                    && final(self).nodes@[p].unvisited_actions@ == old(
                    self,
                ).nodes@[p].unvisited_actions@.drop_last() && final(self).nodes@[p].children@ == old(
                    self,
                ).nodes@[p].children@.push(
                    (old(self).nodes@[p].unvisited_actions@.last(), r),
                ) && State::spec_apply(
                    old(self).nodes@[p].state,
                    old(self).nodes@[p].unvisited_actions@.last(),
                    final(self).nodes@[r as int].state,
                ) && (forall|j: int|
                    0 <= j < old(self).nodes@.len() && j != p
                        ==> (#[trigger] final(self).nodes@[j]).unvisited_actions@ == old(
                        self,
                    ).nodes@[j].unvisited_actions@ && final(self).nodes@[j].children@ == old(
                        self,
                    ).nodes@[j].children@)),
            // when none was, every frontier is as it was
            final(self).nodes@.len() == old(self).nodes@.len() ==> r < old(self).nodes@.len() && (
            forall|j: int|
                0 <= j < old(self).nodes@.len()
                    ==> (#[trigger] final(self).nodes@[j]).unvisited_actions@ == old(
                    self,
                ).nodes@[j].unvisited_actions@ && final(self).nodes@[j].children@ == old(
                    self,
                ).nodes@[j].children@),
            // an unexpanded root with a frontier expands at the root itself
            (depth > 0 && !old(self).nodes@[old(self).root as int].expanded && old(
                self,
            ).nodes@[old(self).root as int].unvisited_actions@.len() > 0) ==> r == old(
                self,
            ).nodes@.len() && final(self).nodes@[r as int].parent == Option::Some(old(self).root)
                && final(self).nodes@[old(self).root as int].unvisited_actions@ == old(
                self,
            ).nodes@[old(self).root as int].unvisited_actions@.drop_last() && State::spec_apply(
                old(self).nodes@[old(self).root as int].state,
                old(self).nodes@[old(self).root as int].unvisited_actions@.last(),
                final(self).nodes@[r as int].state,
            ),
            // a fully expanded root hands the first descent step to its
            // child of highest UCT score under the root's log-visits
            (depth > 0 && old(self).nodes@[old(self).root as int].expanded && old(self).nodes@[old(
                self,
            ).root as int].children@.len() > 0) ==> ({
                let ch = old(self).nodes@[old(self).root as int].children@;
                let ln = spec_ln_fp(old(self).nodes@[old(self).root as int].visits as nat) as u64;
                exists|k: int|
                    #![trigger ch[k]]
                    0 <= k < ch.len() && (forall|j: int|
                        0 <= j < ch.len() ==> old(self).uct_of((#[trigger] ch[j]).1 as int, ln)
                            <= old(self).uct_of(ch[k].1 as int, ln)) && (forall|j: int|
                        k < j < ch.len() ==> old(self).uct_of((#[trigger] ch[j]).1 as int, ln) < old(
                            self,
                        ).uct_of(ch[k].1 as int, ln)) && on_chain(
                        final(self).nodes@,
                        r as int,
                        ch[k].1 as int,
                    )
            }),
    {
        let mut cur = self.root;
        let mut d = depth;
        let ghost uct_case = depth > 0 && old(self).nodes@[old(self).root as int].expanded && old(
            self,
        ).nodes@[old(self).root as int].children@.len() > 0;
        let ghost expand_case = depth > 0 && !old(self).nodes@[old(self).root as int].expanded
            && old(self).nodes@[old(self).root as int].unvisited_actions@.len() > 0;
        let ghost leaf_case = old(self).nodes@[old(self).root as int].expanded && old(
            self,
        ).nodes@[old(self).root as int].children@.len() == 0;
        let ghost mut first_step: Option<usize> = Option::None;
        proof {
            assert(on_chain(self.nodes@, cur as int, self.root as int));
        }
        loop
            invariant
                self.wf(),
                cur < self.nodes@.len(),
                self.root == old(self).root,
                self.nodes@.len() == old(self).nodes@.len(),
                on_chain(self.nodes@, cur as int, self.root as int),
                d <= depth,
                d == depth ==> cur == self.root && *self == *old(self),
                expand_case ==> d == depth,
                leaf_case ==> d == depth,
                forall|j: int|
                    0 <= j < old(self).nodes@.len() ==> {
                        &&& (#[trigger] self.nodes@[j]).state == old(self).nodes@[j].state
                        &&& self.nodes@[j].wins == old(self).nodes@[j].wins
                        &&& self.nodes@[j].visits == old(self).nodes@[j].visits
                        &&& self.nodes@[j].parent == old(self).nodes@[j].parent
                        &&& self.nodes@[j].unvisited_actions@ == old(
                            self,
                        ).nodes@[j].unvisited_actions@
                        &&& self.nodes@[j].children@ == old(self).nodes@[j].children@
                    },
                uct_case ==> match first_step {
                    Option::None => d == depth,
                    Option::Some(f) => ({
                        let ch = old(self).nodes@[old(self).root as int].children@;
                        let ln = spec_ln_fp(
                            old(self).nodes@[old(self).root as int].visits as nat,
                        ) as u64;
                        f < self.nodes@.len() && on_chain(self.nodes@, cur as int, f as int) && (
                        exists|k: int|
                            #![trigger ch[k]]
                            0 <= k < ch.len() && ch[k].1 == f && (forall|j: int|
                                0 <= j < ch.len() ==> old(self).uct_of(
                                    (#[trigger] ch[j]).1 as int,
                                    ln,
                                ) <= old(self).uct_of(ch[k].1 as int, ln)) && (forall|j: int|
                                k < j < ch.len() ==> old(self).uct_of(
                                    (#[trigger] ch[j]).1 as int,
                                    ln,
                                ) < old(self).uct_of(ch[k].1 as int, ln)))
                    }),
                },
            decreases d,
        {
            if d == 0 {
                return cur;
            }
            if !self.nodes[cur].expanded {
                let ghost before = *self;
                match self.expand_next(cur) {
                    Option::Some(c) => {
                        proof {
                            assert forall|k: int| 0 <= k <= cur as int implies before.nodes@[k].parent
                                == self.nodes@[k].parent by {
                            }
                            lemma_chain_parents_agree(
                                before.nodes@,
                                self.nodes@,
                                cur as int,
                                self.root as int,
                            );
                            assert(self.nodes@[c as int].parent == Option::Some(cur));
                            assert(on_chain(self.nodes@, c as int, self.root as int));
                            if uct_case {
                                match first_step {
                                    Option::None => {
                                        // a fully expanded root descends on
                                        // its first iteration, so an
                                        // expansion here is impossible
                                        assert(d == depth);
                                        assert(false);
                                    },
                                    Option::Some(f) => {
                                        lemma_chain_parents_agree(
                                            before.nodes@,
                                            self.nodes@,
                                            cur as int,
                                            f as int,
                                        );
                                        assert(on_chain(self.nodes@, c as int, f as int));
                                    },
                                }
                            }
                            if expand_case {
                                assert(d == depth);
                                assert(cur == self.root);
                            }
                            if leaf_case {
                                assert(d == depth);
                                assert(false);
                            }
                        }
                        return c;
                    },
                    Option::None => {
                        proof {
                            assert forall|k: int| 0 <= k <= cur as int implies before.nodes@[k].parent
                                == self.nodes@[k].parent by {
                            }
                            if expand_case {
                                assert(d == depth);
                                assert(false);
                            }
                            if leaf_case {
                                assert(d == depth);
                                assert(false);
                            }
                            if uct_case && first_step is None {
                                assert(d == depth);
                                assert(false);
                            }
                        }
                        self.mark_expanded(cur);
                        proof {
                            lemma_chain_parents_agree(
                                before.nodes@,
                                self.nodes@,
                                cur as int,
                                self.root as int,
                            );
                            if uct_case {
                                match first_step {
                                    Option::None => {
                                    },
                                    Option::Some(f) => {
                                        lemma_chain_parents_agree(
                                            before.nodes@,
                                            self.nodes@,
                                            cur as int,
                                            f as int,
                                        );
                                    },
                                }
                            }
                        }
                        d = d - 1;
                    },
                }
            } else if self.nodes[cur].children.len() > 0 {
                let best = self.best_uct_child(cur);
                proof {
                    let ch = self.nodes@[cur as int].children@;
                    let k = choose|k: int| 0 <= k < ch.len() && (#[trigger] ch[k]).1 == best;
                    assert(self.node_wf(cur as int));
                    assert(self.nodes@[best as int].parent == Option::Some(cur));
                    assert(on_chain(self.nodes@, best as int, self.root as int));
                    if leaf_case {
                        assert(d == depth);
                        assert(false);
                    }
                    if expand_case {
                        assert(d == depth);
                        assert(false);
                    }
                    if uct_case {
                        match first_step {
                            Option::None => {
                                // the first descent step: remember its target
                                assert(d == depth && cur == self.root && *self == *old(self));
                                assert(on_chain(self.nodes@, best as int, best as int));
                                first_step = Option::Some(best);
                            },
                            Option::Some(f) => {
                                assert(on_chain(self.nodes@, best as int, f as int));
                            },
                        }
                    }
                }
                cur = best;
                d = d - 1;
            } else {
                proof {
                    if expand_case {
                        assert(d == depth);
                        assert(false);
                    }
                    if uct_case && first_step is None {
                        assert(d == depth);
                        assert(false);
                    }
                }
                return cur;
            }
        }
    }

    /// Records one result along the chain from a node to the root: each
    /// node on the chain gains a visit and the reward of the result seen
    /// from the player who moved into that node, held at the top of the
    /// range; nothing else changes.
    #[verifier::loop_isolation(false)]
    pub fn backpropagate(&mut self, idx: usize, result: &UTTTResult)
        requires
            old(self).wf(),
            idx < old(self).nodes@.len(),
        ensures
            final(self).wf(),
            final(self).root == old(self).root,
            final(self).nodes@.len() == old(self).nodes@.len(),
            forall|j: int|
                0 <= j < old(self).nodes@.len() ==> {
                    &&& (#[trigger] final(self).nodes@[j]).state == old(self).nodes@[j].state
                    &&& final(self).nodes@[j].parent == old(self).nodes@[j].parent
                    &&& final(self).nodes@[j].children@ == old(self).nodes@[j].children@
                    &&& final(self).nodes@[j].unvisited_actions@ == old(
                        self,
                    ).nodes@[j].unvisited_actions@
                    &&& final(self).nodes@[j].expanded == old(self).nodes@[j].expanded
                    &&& (on_chain(old(self).nodes@, idx as int, j) ==> final(self).nodes@[j].visits
                        == bumped_visits(old(self).nodes@[j].visits) && final(self).nodes@[j].wins
                        == bumped_wins(
                        old(self).nodes@[j].wins,
                        old(self).nodes@[j].state.spec_player().spec_other().spec_reward_halves(
                            *result,
                        ),
                    ))
                    &&& (!on_chain(old(self).nodes@, idx as int, j) ==> final(self).nodes@[j].visits
                        == old(self).nodes@[j].visits && final(self).nodes@[j].wins == old(
                        self,
                    ).nodes@[j].wins)
                },
    {
        let ghost pre = *old(self);
        let mut cur = idx;
        loop
            invariant
                self.wf(),
                cur < self.nodes@.len(),
                self.root == pre.root,
                self.nodes@.len() == pre.nodes@.len(),
                on_chain(pre.nodes@, idx as int, cur as int),
                forall|j: int|
                    0 <= j < pre.nodes@.len() ==> {
                        &&& (#[trigger] self.nodes@[j]).state == pre.nodes@[j].state
                        &&& self.nodes@[j].parent == pre.nodes@[j].parent
                        &&& self.nodes@[j].children@ == pre.nodes@[j].children@
                        &&& self.nodes@[j].unvisited_actions@ == pre.nodes@[j].unvisited_actions@
                        &&& self.nodes@[j].expanded == pre.nodes@[j].expanded
                        &&& ((on_chain(pre.nodes@, idx as int, j) && !on_chain(
                            pre.nodes@,
                            cur as int,
                            j,
                        )) ==> self.nodes@[j].visits == bumped_visits(pre.nodes@[j].visits)
                            && self.nodes@[j].wins == bumped_wins(
                            pre.nodes@[j].wins,
                            pre.nodes@[j].state.spec_player().spec_other().spec_reward_halves(
                                *result,
                            ),
                        ))
                        &&& ((!on_chain(pre.nodes@, idx as int, j) || on_chain(
                            pre.nodes@,
                            cur as int,
                            j,
                        )) ==> self.nodes@[j].visits == pre.nodes@[j].visits && self.nodes@[j].wins
                            == pre.nodes@[j].wins)
                    },
            decreases cur,
        {
            let ghost before = *self;
            let perspective = self.nodes[cur].state.current_player().other();
            let reward = perspective.reward_halves(result);
            let v = self.nodes[cur].visits;
            let w = self.nodes[cur].wins;
            let nv = if v == u64::MAX {
                v
            } else {
                v + 1
            };
            let nw = if w > u64::MAX - reward {
                u64::MAX
            } else {
                w + reward
            };
            self.nodes[cur].visits = nv;
            self.nodes[cur].wins = nw;
            proof {
                assert(before.node_wf(cur as int));
                assert(nw <= 2 * nv) by {
                    assert(reward <= 2);
                    assert(w <= 2 * v);
                }
                assert forall|j: int| 0 <= j < self.nodes@.len() implies self.node_wf(j) by {
                    assert(before.node_wf(j));
                    if j != cur {
                        assert(self.nodes@[j] == before.nodes@[j]);
                    }
                }
                assert(!on_chain(pre.nodes@, cur as int, cur as int) == false);
            }
            let parent = self.nodes[cur].parent;
            match parent {
                Option::Some(p) => {
                    proof {
                        assert(self.node_wf(cur as int));
                        assert(p < cur);
                        lemma_chain_next(pre.nodes@, idx as int, cur as int, p);
                        if on_chain(pre.nodes@, p as int, cur as int) {
                            lemma_chain_descends(pre.nodes@, p as int, cur as int);
                            assert(false);
                        }
                        assert forall|j: int|
                            0 <= j < pre.nodes@.len() && on_chain(pre.nodes@, cur as int, j)
                                && !on_chain(pre.nodes@, p as int, j) implies j == cur as int by {
                            lemma_chain_split(pre.nodes@, cur as int, p, j);
                        }
                    }
                    cur = p;
                },
                Option::None => {
                    proof {
                        assert forall|j: int|
                            0 <= j < pre.nodes@.len() && on_chain(
                                pre.nodes@,
                                cur as int,
                                j,
                            ) implies j == cur as int by {
                        }
                    }
                    return ;
                },
            }
        }
    }

    /// The child of the root with the highest empirical win rate, by
    /// exact cross-multiplied comparison; ties go to the latest-created
    /// child.  The exploration term plays no part in this final choice.
    /// Calling this with a childless root is a caller bug, which the
    /// precondition rules out.
    #[verifier::loop_isolation(false)]
    pub fn best_child(&self) -> (r: usize)
        requires
            self.wf(),
            self.nodes@[self.root as int].children@.len() > 0,
        ensures
            r < self.nodes@.len(),
            ({
                let ch = self.nodes@[self.root as int].children@;
                exists|c: int|
                    #![trigger ch[c]]
                    0 <= c < ch.len() && ch[c].1 == r && (forall|j: int|
                        0 <= j < ch.len() ==> win_rate_le(
                            self.nodes@,
                            (#[trigger] ch[j]).1 as int,
                            ch[c].1 as int,
                        )) && (forall|j: int|
                        c < j < ch.len() ==> !win_rate_le(
                            self.nodes@,
                            ch[c].1 as int,
                            (#[trigger] ch[j]).1 as int,
                        ))
            }),
    {
        let ghost ch = self.nodes@[self.root as int].children@;
        proof {
            assert(self.node_wf(self.root as int));
        }
        let mut pos: usize = 0;
        let mut best = self.nodes[self.root].children[0].1;
        let mut i: usize = 1;
        while i < self.nodes[self.root].children.len()
            invariant
                pos < i <= ch.len(),
                best == ch[pos as int].1,
                forall|j: int|
                    0 <= j < i ==> win_rate_le(
                        self.nodes@,
                        (#[trigger] ch[j]).1 as int,
                        ch[pos as int].1 as int,
                    ),
                forall|j: int|
                    pos < j < i ==> !win_rate_le(
                        self.nodes@,
                        ch[pos as int].1 as int,
                        (#[trigger] ch[j]).1 as int,
                    ),
            decreases ch.len() - i,
        {
            let c = self.nodes[self.root].children[i].1;
            proof {
                assert(self.node_wf(self.root as int));
                assert(self.node_wf(c as int));
                assert(self.node_wf(best as int));
                lemma_word_product_fits(self.nodes@[best as int].wins, self.nodes@[c as int].visits);
                lemma_word_product_fits(self.nodes@[c as int].wins, self.nodes@[best as int].visits);
            }
            let keep = (self.nodes[best].wins as u128) * (self.nodes[c].visits as u128) > (
            self.nodes[c].wins as u128) * (self.nodes[best].visits as u128);
            if keep {
                proof {
                    assert(!win_rate_le(self.nodes@, best as int, c as int));
                }
            } else {
                proof {
                    assert(win_rate_le(self.nodes@, best as int, c as int));
                    assert forall|j: int| 0 <= j < i + 1 implies win_rate_le(
                        self.nodes@,
                        (#[trigger] ch[j]).1 as int,
                        ch[i as int].1 as int,
                    ) by {
                        if j < i {
                            assert(self.node_wf((ch[j].1) as int));
                            lemma_rate_trans(
                                self.nodes@[ch[j].1 as int].wins,
                                self.nodes@[ch[j].1 as int].visits,
                                self.nodes@[best as int].wins,
                                self.nodes@[best as int].visits,
                                self.nodes@[c as int].wins,
                                self.nodes@[c as int].visits,
                            );
                        }
                    }
                }
                best = c;
                pos = i;
            }
            i += 1;
        }
        proof {
            assert(ch[pos as int].1 == best);
        }
        best
    }

    /// Re-roots the tree at a child of the root, keeping the child's
    /// subtree and its statistics; the abandoned siblings stay in the
    /// arena but are no longer reachable from the root.
    pub fn promote(&mut self, child: usize)
        requires
            old(self).wf(),
            exists|c: int|
                0 <= c < old(self).nodes@[old(self).root as int].children@.len() && (
                #[trigger] old(self).nodes@[old(self).root as int].children@[c]).1 == child,
        ensures
            final(self).wf(),
            final(self).root == child,
            final(self).nodes@ == old(self).nodes@,
    {
        proof {
            assert(self.node_wf(self.root as int));
            let c = choose|c: int|
                0 <= c < self.nodes@[self.root as int].children@.len() && (
                #[trigger] self.nodes@[self.root as int].children@[c]).1 == child;
            assert(child < self.nodes@.len());
        }
        let ghost snap = *self;
        self.root = child;
        proof {
            assert forall|k: int| 0 <= k < self.nodes@.len() implies self.node_wf(k) by {
                assert(snap.node_wf(k));
            }
        }
    }

    /// Advances the root to the child reached by a legal action of the
    /// root position, first expanding every remaining unexpanded action
    /// of the root so that the child is sure to exist.  The new root's
    /// recorded last action is the action moved on.
    #[verifier::loop_isolation(false)]
    pub fn move_down(&mut self, action: Action)
        requires
            old(self).wf(),
            old(self).nodes@[old(self).root as int].state.result == UTTTResult::InPlay,
            old(self).nodes@[old(self).root as int].state.action_legal(action),
        ensures
            final(self).wf(),
            final(self).nodes@[final(self).root as int].state.last_action == Option::Some(action),
            final(self).nodes@[final(self).root as int].parent == Option::Some(old(self).root),
            State::spec_apply(
                old(self).nodes@[old(self).root as int].state,
                action,
                final(self).nodes@[final(self).root as int].state,
            ),
            final(self).nodes@.len() >= old(self).nodes@.len(),
            forall|j: int|
                0 <= j < old(self).nodes@.len() ==> {
                    &&& (#[trigger] final(self).nodes@[j]).state == old(self).nodes@[j].state
                    &&& final(self).nodes@[j].wins == old(self).nodes@[j].wins
                    &&& final(self).nodes@[j].visits == old(self).nodes@[j].visits
                    &&& final(self).nodes@[j].parent == old(self).nodes@[j].parent
                },
    {
        let root = self.root;
        while self.nodes[root].unvisited_actions.len() > 0
            invariant
                self.wf(),
                root == self.root,
                root < self.nodes@.len(),
                self.nodes@.len() >= old(self).nodes@.len(),
                self.nodes@[root as int].state == old(self).nodes@[root as int].state,
                forall|j: int|
                    0 <= j < old(self).nodes@.len() ==> {
                        &&& (#[trigger] self.nodes@[j]).state == old(self).nodes@[j].state
                        &&& self.nodes@[j].wins == old(self).nodes@[j].wins
                        &&& self.nodes@[j].visits == old(self).nodes@[j].visits
                        &&& self.nodes@[j].parent == old(self).nodes@[j].parent
                    },
            decreases self.nodes@[root as int].unvisited_actions@.len(),
        {
            let _ = self.expand_next(root);
        }
        self.mark_expanded(root);
        proof {
            assert(self.node_wf(root as int));
            let n = self.nodes@[root as int];
            assert(n.state.action_legal(action));
            assert(!n.unvisited_actions@.contains(action)) by {
                if n.unvisited_actions@.contains(action) {
                    let q = choose|q: int|
                        0 <= q < n.unvisited_actions@.len() && n.unvisited_actions@[q] == action;
                }
            }
            assert(child_action(n, action));
        }
        let ghost snap = *self;
        let ch_len = self.nodes[root].children.len();
        let mut i: usize = 0;
        while i < ch_len
            invariant
                *self == snap,
                root == self.root,
                root < self.nodes@.len(),
                self.wf(),
                self.nodes@[root as int].state == old(self).nodes@[root as int].state,
                ch_len == self.nodes@[root as int].children@.len(),
                child_action(self.nodes@[root as int], action),
                i <= ch_len,
                forall|j: int|
                    0 <= j < i ==> (#[trigger] self.nodes@[root as int].children@[j]).0 != action,
            decreases ch_len - i,
        {
            proof {
                assert(self.node_wf(root as int));
            }
            let entry_action = self.nodes[root].children[i].0;
            let entry_child = self.nodes[root].children[i].1;
            if entry_action == action {
                proof {
                    assert(entry_child < self.nodes@.len());
                    assert(self.nodes@[entry_child as int].parent == Option::Some(root));
                    assert(self.nodes@[entry_child as int].state.last_action == Option::Some(
                        action,
                    ));
                    assert(State::spec_apply(
                        self.nodes@[root as int].state,
                        action,
                        self.nodes@[entry_child as int].state,
                    ));
                }
                self.root = entry_child;
                proof {
                    assert forall|k: int| 0 <= k < self.nodes@.len() implies self.node_wf(k) by {
                        assert(snap.node_wf(k));
                    }
                }
                return ;
            }
            i += 1;
        }
        proof {
            let n = self.nodes@[root as int];
            let k = choose|k: int|
                0 <= k < n.children@.len() && (#[trigger] n.children@[k]).0 == action;
            assert(false);
        }
    }

    /// One full search step: select (and possibly expand) a node, obtain
    /// a terminal result — by a random rollout from the node's position
    /// while it is in play, else the position's own result — and record
    /// it up the chain to the root: every node of that chain, the root
    /// included, gains exactly one visit and the reward of the result
    /// seen by the player who moved into it, and no other statistic
    /// moves.
    #[verifier::rlimit(60)]
    pub fn search_iteration(&mut self, rng: &mut Rng, depth: usize)
        requires
            old(self).wf(),
        ensures
            final(self).wf(),
            final(self).root == old(self).root,
            final(self).nodes@.len() >= old(self).nodes@.len(),
            final(self).nodes@.len() <= old(self).nodes@.len() + 1,
            final(self).nodes@[final(self).root as int].visits == bumped_visits(
                old(self).nodes@[old(self).root as int].visits,
            ),
            forall|j: int|
                0 <= j < old(self).nodes@.len() ==> {
                    &&& (#[trigger] final(self).nodes@[j]).state == old(self).nodes@[j].state
                    &&& final(self).nodes@[j].parent == old(self).nodes@[j].parent
                    &&& final(self).nodes@[j].visits >= old(self).nodes@[j].visits
                    &&& final(self).nodes@[j].wins >= old(self).nodes@[j].wins
                },
            // the cycle in one sentence: some node was selected, some
            // terminal result obtained, and the statistics along the
            // chain from it to the root were credited exactly once
            exists|s: int, t: UTTTResult| #[trigger] t_witness(*old(self), *final(self), s, t),
            // an unexpanded root with a frontier grows the arena by the
            // expanded child, and the credit starts at that child
            (depth > 0 && !old(self).nodes@[old(self).root as int].expanded && old(
                self,
            ).nodes@[old(self).root as int].unvisited_actions@.len() > 0) ==> final(self).nodes@.len()
                == old(self).nodes@.len() + 1 && (exists|t: UTTTResult|
                #[trigger] t_witness(*old(self), *final(self), old(self).nodes@.len() as int, t)),
            // a fully expanded root credits a chain through its child of
            // highest UCT score
            (depth > 0 && old(self).nodes@[old(self).root as int].expanded && old(self).nodes@[old(
                self,
            ).root as int].children@.len() > 0) ==> ({
                let ch = old(self).nodes@[old(self).root as int].children@;
                let ln = spec_ln_fp(old(self).nodes@[old(self).root as int].visits as nat) as u64;
                exists|s: int, t: UTTTResult, k: int|
                    #![auto]
                    t_witness(*old(self), *final(self), s, t) && 0 <= k < ch.len() && (forall|
                        j: int,
                    |
                        0 <= j < ch.len() ==> old(self).uct_of((#[trigger] ch[j]).1 as int, ln)
                            <= old(self).uct_of(ch[k].1 as int, ln)) && on_chain(
                        final(self).nodes@,
                        s,
                        ch[k].1 as int,
                    )
            }),
            // a decided leaf at the root is credited with its own result
            (old(self).nodes@[old(self).root as int].expanded && old(self).nodes@[old(
                self,
            ).root as int].children@.len() == 0) ==> t_witness(
                *old(self),
                *final(self),
                old(self).root as int,
                old(self).nodes@[old(self).root as int].state.result,
            ),
            // a spent depth allowance credits the root's own chain
            depth == 0 ==> (exists|t: UTTTResult|
                #[trigger] t_witness(*old(self), *final(self), old(self).root as int, t)),
    {
        let selected = self.select(depth);
        let ghost mid = *self;
        proof {
            assert(self.node_wf(selected as int));
        }
        let result = if self.nodes[selected].state.playable() {
            let endgame = self.nodes[selected].state.clone();
            endgame.simulate_game(rng)
        } else {
            self.nodes[selected].state.outcome()
        };
        self.backpropagate(selected, &result);
        proof {
            reveal(t_witness);
            let s = selected as int;
            assert forall|j: int| 0 <= j < mid.nodes@.len() implies on_chain(self.nodes@, s, j)
                == on_chain(mid.nodes@, s, j) by {
                assert forall|k: int| 0 <= k <= s implies mid.nodes@[k].parent
                    == self.nodes@[k].parent by {
                }
                if on_chain(self.nodes@, s, j) {
                    lemma_chain_parents_agree(self.nodes@, mid.nodes@, s, j);
                }
                if on_chain(mid.nodes@, s, j) {
                    lemma_chain_parents_agree(mid.nodes@, self.nodes@, s, j);
                }
            }
            assert(on_chain(self.nodes@, s, self.root as int));
            assert(t_witness(*old(self), *self, s, result));
            if old(self).nodes@[old(self).root as int].expanded && old(self).nodes@[old(
                self,
            ).root as int].children@.len() == 0 {
                // a decided leaf: the root's own result was the one taken
                assert(selected == old(self).root);
                let n = old(self).nodes@[old(self).root as int];
                assert(old(self).node_wf(old(self).root as int));
                if n.state.result == UTTTResult::InPlay {
                    lemma_in_play_has_legal_action(n.state);
                    let a = choose|a: Action| #[trigger] n.state.action_legal(a);
                    assert(n.unvisited_actions@.contains(a) || child_action(n, a));
                    if n.unvisited_actions@.contains(a) {
                        let q = choose|q: int|
                            0 <= q < n.unvisited_actions@.len() && n.unvisited_actions@[q] == a;
                        assert(false);
                    }
                    if child_action(n, a) {
                        let q = choose|q: int|
                            0 <= q < n.children@.len() && (#[trigger] n.children@[q]).0 == a;
                        assert(false);
                    }
                    assert(false);
                }
                assert(result == n.state.result);
            }
            if depth > 0 && old(self).nodes@[old(self).root as int].expanded && old(
                self,
            ).nodes@[old(self).root as int].children@.len() > 0 {
                // the credited chain passes through the root's child of
                // highest UCT score, as the descent chose it
                let ch = old(self).nodes@[old(self).root as int].children@;
                let ln = spec_ln_fp(old(self).nodes@[old(self).root as int].visits as nat) as u64;
                let k = choose|k: int|
                    #![trigger ch[k]]
                    0 <= k < ch.len() && (forall|j: int|
                        0 <= j < ch.len() ==> old(self).uct_of((#[trigger] ch[j]).1 as int, ln)
                            <= old(self).uct_of(ch[k].1 as int, ln)) && (forall|j: int|
                        k < j < ch.len() ==> old(self).uct_of((#[trigger] ch[j]).1 as int, ln) < old(
                            self,
                        ).uct_of(ch[k].1 as int, ln)) && on_chain(
                        mid.nodes@,
                        selected as int,
                        ch[k].1 as int,
                    );
                assert(old(self).node_wf(old(self).root as int));
                assert(ch[k].1 < mid.nodes@.len());
                assert(on_chain(self.nodes@, s, ch[k].1 as int));
                assert(t_witness(*old(self), *self, s, result) && 0 <= k < ch.len() && (forall|
                    j: int,
                |
                    0 <= j < ch.len() ==> old(self).uct_of((#[trigger] ch[j]).1 as int, ln) <= old(
                        self,
                    ).uct_of(ch[k].1 as int, ln)) && on_chain(self.nodes@, s, ch[k].1 as int));
            }
        }
    }

    /// Runs whole search steps until the time budget is spent: the clock
    /// is read once per step, so a step in flight is never interrupted
    /// and the budget can be overrun by the cost of one rollout.
    /// Whatever the clock answers, the arena is only ever appended, the
    /// old nodes keep their positions and links, and statistics only
    /// ever grow.
    pub fn expand_tree(
        &mut self,
        begin: &std::time::Instant,
        duration_nanos: u64,
        rng: &mut Rng,
        depth: usize,
    )
        requires
            old(self).wf(),
        ensures
            final(self).wf(),
            final(self).root == old(self).root,
            final(self).nodes@.len() >= old(self).nodes@.len(),
            forall|j: int|
                0 <= j < old(self).nodes@.len() ==> {
                    &&& (#[trigger] final(self).nodes@[j]).state == old(self).nodes@[j].state
                    &&& final(self).nodes@[j].parent == old(self).nodes@[j].parent
                    &&& final(self).nodes@[j].visits >= old(self).nodes@[j].visits
                    &&& final(self).nodes@[j].wins >= old(self).nodes@[j].wins
                },
    {
        let mut count: u64 = 0;
        loop
            invariant
                self.wf(),
                self.root == old(self).root,
                count <= u64::MAX,
                self.nodes@.len() >= old(self).nodes@.len(),
                forall|j: int|
                    0 <= j < old(self).nodes@.len() ==> {
                        &&& (#[trigger] self.nodes@[j]).state == old(self).nodes@[j].state
                        &&& self.nodes@[j].parent == old(self).nodes@[j].parent
                        &&& self.nodes@[j].visits >= old(self).nodes@[j].visits
                        &&& self.nodes@[j].wins >= old(self).nodes@[j].wins
                    },
            decreases u64::MAX - count,
        {
            if count >= u64::MAX {
                return ;
            }
            if elapsed_nanos(begin) >= duration_nanos {
                return ;
            }
            self.search_iteration(rng, depth);
            count = count + 1;
        }
    }
}

/// Backpropagating a rollout won by the player who moved into a node
/// never lowers that node's win-rate estimate, and strictly raises it
/// while the estimate is below certainty — so repeated identical winning
/// rollouts drive the estimate monotonically upward.  This holds as long
/// as the counters are below their saturation cap, where a further
/// reward can no longer be recorded.
pub proof fn lemma_backprop_win_monotone(w: u64, v: u64)
    requires
        v >= 1,
        w <= 2 * v,
        w + 2 <= u64::MAX,
        v < u64::MAX,
    ensures
        bumped_wins(w, 2) * v >= w * bumped_visits(v),
        w < 2 * v ==> bumped_wins(w, 2) * v > w * bumped_visits(v),
{
    assert(bumped_wins(w, 2) == w + 2);
    assert(bumped_visits(v) == v + 1);
    assert((w + 2) * v >= w * (v + 1)) by (nonlinear_arith)
        requires
            w <= 2 * v,
    ;
    if w < 2 * v {
        assert((w + 2) * v > w * (v + 1)) by (nonlinear_arith)
            requires
                w < 2 * v,
                v >= 1,
        ;
    }
}

/// The credit one search cycle leaves behind: from selected node `s`
/// with terminal result `t`, every node on the chain to the root gained
/// one visit and the reward of `t` for the player who moved into it,
/// and every other node kept its statistics.
#[verifier::opaque]
pub open spec fn t_witness(pre: MctsTree, post: MctsTree, s: int, t: UTTTResult) -> bool {
    &&& 0 <= s < post.nodes@.len()
    &&& t != UTTTResult::InPlay
    &&& on_chain(post.nodes@, s, post.root as int)
    &&& forall|j: int|
        0 <= j < pre.nodes@.len() ==> {
            &&& (on_chain(post.nodes@, s, j) ==> (#[trigger] post.nodes@[j]).visits
                == bumped_visits(pre.nodes@[j].visits) && post.nodes@[j].wins == bumped_wins(
                pre.nodes@[j].wins,
                pre.nodes@[j].state.spec_player().spec_other().spec_reward_halves(t),
            ))
            &&& (!on_chain(post.nodes@, s, j) ==> post.nodes@[j].visits == pre.nodes@[j].visits
                && post.nodes@[j].wins == pre.nodes@[j].wins)
        }
}

/// Comparing win rates by cross-multiplication is transitive.
proof fn lemma_rate_trans(w1: u64, v1: u64, w2: u64, v2: u64, w3: u64, v3: u64)
    requires
        v1 >= 1,
        v2 >= 1,
        v3 >= 1,
        w1 * v2 <= w2 * v1,
        w2 * v3 <= w3 * v2,
    ensures
        w1 * v3 <= w3 * v1,
{
    assert(w1 * v3 <= w3 * v1) by (nonlinear_arith)
        requires
            v1 >= 1,
            v2 >= 1,
            v3 >= 1,
            w1 * v2 <= w2 * v1,
            w2 * v3 <= w3 * v2,
    ;
}

} // verus!
