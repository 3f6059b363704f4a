use std::collections::HashSet;
use vstd::prelude::*;
use crate::graph::{
    HiveMap, Node, has_slot, is_destruction, lemma_cut_count, lemma_has_slot_live,
    lemma_live_slot,
};

verus! {

/// Moves after which an agent counts as finished.
pub const MOVES: u32 = 10000;

/// Two agents met on `hive_index` and destroyed it: `ant1` moved in, `ant2` was there.
#[derive(Debug)]
pub struct DestructionEvent {
    pub hive_index: usize,
    pub ant1: isize,
    pub ant2: isize,
}

/// The agents: where the live ones stand, their move counts, and how many
/// are finished or dead.
pub struct Ants {
    pub nodes_with_ants: Vec<usize>,
    pub nodes_with_ants_set: HashSet<usize>,
    pub all_ants: usize,
    pub finished_or_dead_ants: usize,
    pub ant_to_moves: Vec<u32>,
}

/// 1 where entry `e` is a live node whose agent has not reached the cap.
pub open spec fn weight(g: Seq<Node>, m: Seq<u32>, e: usize) -> int {
    if e < g.len() && !g[e as int].is_destroyed() && 0 <= g[e as int].present_ant < m.len()
        && m[g[e as int].present_ant as int] < MOVES {
        1
    } else {
        0
    }
}

/// Number of entries of `s` that hold an agent still to be counted.
pub open spec fn pending(g: Seq<Node>, m: Seq<u32>, s: Seq<usize>) -> int
    decreases s.len(),
{
    if s.len() == 0 {
        0
    } else {
        pending(g, m, s.drop_last()) + weight(g, m, s.last())
    }
}

/// `s` after `swap_remove(i)`.
pub open spec fn swap_removed(s: Seq<usize>, i: int) -> Seq<usize> {
    s.update(i, s.last()).drop_last()
}

proof fn lemma_pending_nonneg(g: Seq<Node>, m: Seq<u32>, s: Seq<usize>)
    ensures
        pending(g, m, s) >= 0,
    decreases s.len(),
{
    if s.len() > 0 {
        lemma_pending_nonneg(g, m, s.drop_last());
    }
}

proof fn lemma_pending_diff(
    g1: Seq<Node>,
    m1: Seq<u32>,
    s1: Seq<usize>,
    g2: Seq<Node>,
    m2: Seq<u32>,
    s2: Seq<usize>,
    a: int,
    b: int,
    k: int,
)
    requires
        s1.len() == s2.len(),
        0 <= k <= s1.len(),
        forall|j: int|
            0 <= j < s1.len() && j != a && j != b ==> weight(g2, m2, #[trigger] s2[j]) == weight(
                g1,
                m1,
                s1[j],
            ),
    ensures
        pending(g2, m2, s2.take(k)) - pending(g1, m1, s1.take(k)) == (if 0 <= a < k {
            weight(g2, m2, s2[a]) - weight(g1, m1, s1[a])
        } else {
            0
        }) + (if b != a && 0 <= b < k {
            weight(g2, m2, s2[b]) - weight(g1, m1, s1[b])
        } else {
            0
        }),
    decreases k,
{
    if k > 0 {
        lemma_pending_diff(g1, m1, s1, g2, m2, s2, a, b, k - 1);
        assert(s1.take(k).drop_last() =~= s1.take(k - 1));
        assert(s2.take(k).drop_last() =~= s2.take(k - 1));
    }
}

/// Pending count after changing entries `a` and `b` (possibly equal) and nothing else.
proof fn lemma_pending_change(
    g1: Seq<Node>,
    m1: Seq<u32>,
    s1: Seq<usize>,
    g2: Seq<Node>,
    m2: Seq<u32>,
    s2: Seq<usize>,
    a: int,
    b: int,
)
    requires
        s1.len() == s2.len(),
        forall|j: int|
            0 <= j < s1.len() && j != a && j != b ==> weight(g2, m2, #[trigger] s2[j]) == weight(
                g1,
                m1,
                s1[j],
            ),
    ensures
        pending(g2, m2, s2) - pending(g1, m1, s1) == (if 0 <= a < s1.len() {
            weight(g2, m2, s2[a]) - weight(g1, m1, s1[a])
        } else {
            0
        }) + (if b != a && 0 <= b < s1.len() {
            weight(g2, m2, s2[b]) - weight(g1, m1, s1[b])
        } else {
            0
        }),
{
    lemma_pending_diff(g1, m1, s1, g2, m2, s2, a, b, s1.len() as int);
    assert(s1.take(s1.len() as int) =~= s1);
    assert(s2.take(s2.len() as int) =~= s2);
}

proof fn lemma_pending_swap_remove(g: Seq<Node>, m: Seq<u32>, s: Seq<usize>, i: int)
    requires
        0 <= i < s.len(),
    ensures
        pending(g, m, swap_removed(s, i)) == pending(g, m, s) - weight(g, m, s[i]),
{
    let u = s.update(i, s.last());
    lemma_pending_change(g, m, s, g, m, u, i, i);
}

proof fn lemma_swap_removed_contains(s: Seq<usize>, i: int, v: usize)
    requires
        0 <= i < s.len(),
        s.contains(v),
        s[i] != v,
    ensures
        swap_removed(s, i).contains(v),
{
    let j = choose|j: int| 0 <= j < s.len() && s[j] == v;
    let r = swap_removed(s, i);
    if j == s.len() - 1 {
        assert(r[i] == v);
    } else {
        assert(r[j] == v);
    }
}

proof fn lemma_swap_removed_index(s: Seq<usize>, i: int)
    requires
        0 <= i < s.len(),
    ensures
        swap_removed(s, i).len() == s.len() - 1,
        forall|k: int|
            0 <= k < s.len() - 1 ==> #[trigger] swap_removed(s, i)[k] == s[if k == i {
                s.len() - 1
            } else {
                k
            }],
{
}

impl Ants {
    /// The agents are consistent with `map`: every entry of `nodes_with_ants`
    /// is a node index; entries on live nodes hold distinct agents; every live
    /// node with an agent and a way out has an entry; and the agents not yet
    /// counted are exactly those on entries at live nodes below the cap.
    pub open spec fn wf(&self, map: &HiveMap) -> bool {
        let g = map.graph@;
        let e = self.nodes_with_ants@;
        let m = self.ant_to_moves@;
        &&& m.len() == self.all_ants
        &&& self.finished_or_dead_ants <= self.all_ants
        &&& self.finished_or_dead_ants + pending(g, m, e) == self.all_ants
        &&& forall|i: int| 0 <= i < e.len() ==> #[trigger] e[i] < g.len()
        &&& forall|i: int|
            0 <= i < e.len() && !g[e[i] as int].is_destroyed() ==> 0 <= #[trigger] g[e[i] as int].present_ant
                < self.all_ants
        &&& forall|i: int, j: int|
            0 <= i < e.len() && 0 <= j < e.len() && i != j && !g[e[i] as int].is_destroyed()
                && !g[e[j] as int].is_destroyed() ==> #[trigger] g[e[i] as int].present_ant
                != #[trigger] g[e[j] as int].present_ant
        &&& forall|t: int|
            0 <= t < g.len() && !(#[trigger] g[t]).is_destroyed() && g[t].present_ant >= 0
                && g[t].neighbor_count > 0 ==> e.contains(t as usize)
    }
}

/// Whether `choice` is a valid neighbor pick for the entry at `pick`.
pub open spec fn choice_ok(map: &HiveMap, ants: &Ants, pick: int, choice: int) -> bool {
    let n = map.graph@[ants.nodes_with_ants@[pick] as int];
    !n.is_destroyed() && n.neighbor_count > 0 ==> 0 <= choice < n.valid_neighbors@.len()
}

/// `n` with agent `a` on it.
pub open spec fn with_ant(n: Node, a: isize) -> Node {
    Node { present_ant: a, ..n }
}

/// Move count after one more move (it stays at the largest `u32`).
pub open spec fn next_moves(c: u32) -> u32 {
    if c < u32::MAX {
        (c + 1) as u32
    } else {
        c
    }
}

pub open spec fn one_if(b: bool) -> int {
    if b {
        1
    } else {
        0
    }
}

/// One step of the simulation on the entry at `pick`, going to the `choice`-th
/// valid neighbor, takes (`m0`, `a0`) to (`m1`, `a1`) and reports `r`.
pub open spec fn stepped(
    m0: &HiveMap,
    a0: &Ants,
    pick: int,
    choice: int,
    m1: &HiveMap,
    a1: &Ants,
    r: Option<DestructionEvent>,
) -> bool {
    let g0 = m0.graph@;
    let g1 = m1.graph@;
    let e0 = a0.nodes_with_ants@;
    let e1 = a1.nodes_with_ants@;
    let mv0 = a0.ant_to_moves@;
    let mv1 = a1.ant_to_moves@;
    let f0 = a0.finished_or_dead_ants as int;
    let f1 = a1.finished_or_dead_ants as int;
    let s = e0[pick] as int;
    let src = g0[s];
    let a = src.present_ant;
    if src.is_destroyed() {
        &&& r is None
        &&& g1 == g0
        &&& e1 == swap_removed(e0, pick)
        &&& mv1 == mv0
        &&& f1 == f0
    } else if src.neighbor_count == 0 {
        &&& r is None
        &&& g1 == g0
        &&& e1 == swap_removed(e0, pick)
        &&& mv1 == mv0
        &&& f1 == f0 + one_if(mv0[a as int] < MOVES)
    } else {
        let t = src.valid_neighbors@[choice] as int;
        if t == s || g0[t].present_ant == -1 {
            let c = next_moves(mv0[a as int]);
            &&& r is None
            &&& g1 == g0.update(s, with_ant(src, -1isize)).update(t, with_ant(g0[t], a))
            &&& e1 == e0.update(pick, t as usize)
            &&& mv1 == mv0.update(a as int, c)
            &&& f1 == f0 + one_if(c == MOVES)
        } else {
            let b = g0[t].present_ant;
            &&& r == Some(DestructionEvent { hive_index: t as usize, ant1: a, ant2: b })
            &&& is_destruction(g0.update(s, with_ant(src, -1isize)), g1, t)
            &&& e1 == swap_removed(e0, pick)
            &&& mv1 == mv0
            &&& f1 == f0 + one_if(mv0[b as int] < MOVES) + one_if(mv0[a as int] < MOVES)
        }
    }
}

/// Advances the agent on entry `pick` of the active list by one step, moving
/// it to its `choice`-th valid neighbor; a collision destroys the target node
/// and is returned.
#[verifier::rlimit(100)]
#[verifier::spinoff_prover]
pub fn step(map: &mut HiveMap, ants: &mut Ants, pick: usize, choice: usize) -> (r: Option<
    DestructionEvent,
>)
    requires
        old(map).wf(),
        old(ants).wf(old(map)),
        pick < old(ants).nodes_with_ants@.len(),
        choice_ok(old(map), old(ants), pick as int, choice as int),
    ensures
        final(map).wf(),
        final(ants).wf(final(map)),
        final(map).index_to_name == old(map).index_to_name,
        final(map).name_to_index == old(map).name_to_index,
        final(ants).all_ants == old(ants).all_ants,
        final(ants).finished_or_dead_ants >= old(ants).finished_or_dead_ants,
        stepped(old(map), old(ants), pick as int, choice as int, final(map), final(ants), r),
        final(map).graph@.len() == old(map).graph@.len(),
        forall|i: int|
            0 <= i < old(map).graph@.len() && old(map).graph@[i].is_destroyed() ==> #[trigger] final(map).graph@[i] == old(map).graph@[i],
        r matches Some(ev) ==> ev.hive_index < old(map).graph@.len() && !old(map).graph@[ev.hive_index as int].is_destroyed()
            && final(map).graph@[ev.hive_index as int].is_destroyed(),
        r matches Some(ev) ==> 0 <= ev.ant1 < old(ants).all_ants && 0 <= ev.ant2 < old(ants).all_ants && ev.ant1 != ev.ant2,
        forall|i: int|
            0 <= i < old(map).graph@.len() ==> (#[trigger] final(map).graph@[i]).is_destroyed() == (
            old(map).graph@[i].is_destroyed() || (r matches Some(ev) && i == ev.hive_index)),
        final(ants).ant_to_moves@.len() == old(ants).ant_to_moves@.len(),
        forall|i: int|
            0 <= i < old(ants).ant_to_moves@.len() ==> #[trigger] final(ants).ant_to_moves@[i]
                >= old(ants).ant_to_moves@[i],
{
    let ghost g0 = map.graph@;
    let ghost e0 = ants.nodes_with_ants@;
    let ghost mv0 = ants.ant_to_moves@;
    let ghost f0 = ants.finished_or_dead_ants;
    let node_index = ants.nodes_with_ants[pick];
    proof {
        lemma_swap_removed_index(e0, pick as int);
    }
    if map.graph[node_index].neighbor_count == -1 {
        ants.nodes_with_ants.swap_remove(pick);
        proof {
            lemma_pending_swap_remove(g0, mv0, e0, pick as int);
            assert(ants.nodes_with_ants@ =~= swap_removed(e0, pick as int));
            assert forall|t: int|
                0 <= t < g0.len() && !(#[trigger] g0[t]).is_destroyed() && g0[t].present_ant >= 0
                    && g0[t].neighbor_count > 0 implies ants.nodes_with_ants@.contains(t as usize) by {
                lemma_swap_removed_contains(e0, pick as int, t as usize);
            }
        }
        return None;
    }
    if map.graph[node_index].neighbor_count == 0 {
        ants.nodes_with_ants.swap_remove(pick);
        let ant = map.graph[node_index].present_ant as usize;
        proof {
            lemma_pending_swap_remove(g0, mv0, e0, pick as int);
            assert(ants.nodes_with_ants@ =~= swap_removed(e0, pick as int));
            assert forall|t: int|
                0 <= t < g0.len() && !(#[trigger] g0[t]).is_destroyed() && g0[t].present_ant >= 0
                    && g0[t].neighbor_count > 0 implies ants.nodes_with_ants@.contains(t as usize) by {
                lemma_swap_removed_contains(e0, pick as int, t as usize);
            }
            lemma_pending_nonneg(g0, mv0, ants.nodes_with_ants@);
        }
        if ants.ant_to_moves[ant] < MOVES {
            ants.finished_or_dead_ants = ants.finished_or_dead_ants + 1;
        }
        return None;
    }
    let target = map.graph[node_index].valid_neighbors[choice];
    let ant = map.graph[node_index].present_ant;
    let ghost s = node_index as int;
    let ghost t = target as int;
    let ghost a = ant;
    proof {
        let k = lemma_live_slot(g0[s].neighbors@, choice as int);
        assert(g0[s].neighbors@[k] >= 0);
        assert(!g0[t].is_destroyed() && has_slot(g0[t].neighbors@, s));
        assert(g0[e0[pick as int] as int].present_ant == a);
    }
    map.graph[node_index].present_ant = -1;
    let ghost gm = map.graph@;
    proof {
        assert(gm =~= g0.update(s, with_ant(g0[s], -1isize)));
        assert forall|i: int| 0 <= i < gm.len() implies (#[trigger] gm[i]).neighbors == g0[i].neighbors
            && gm[i].is_destroyed() == g0[i].is_destroyed() && gm[i].wf(gm.len() as int) by {}
        assert(map.wf());
    }
    if map.graph[target].present_ant == -1 {
        map.graph[target].present_ant = ant;
        ants.nodes_with_ants[pick] = target;
        let au = ant as usize;
        let c = ants.ant_to_moves[au];
        let c1 = if c < u32::MAX {
            c + 1
        } else {
            c
        };
        ants.ant_to_moves[au] = c1;
        let ghost g1 = map.graph@;
        let ghost e1 = ants.nodes_with_ants@;
        let ghost mv1 = ants.ant_to_moves@;
        proof {
            assert(g1 =~= g0.update(s, with_ant(g0[s], -1isize)).update(t, with_ant(g0[t], a)));
            assert forall|i: int| 0 <= i < g1.len() implies (#[trigger] g1[i]).neighbors == g0[i].neighbors
                && g1[i].is_destroyed() == g0[i].is_destroyed() && g1[i].wf(g1.len() as int) by {}
            assert(map.wf());
            assert forall|j: int| 0 <= j < e0.len() && j != pick implies e1[j] == e0[j]
                && (#[trigger] g1[e0[j] as int]) == g0[e0[j] as int] && (!g0[e0[j] as int].is_destroyed()
                ==> g0[e0[j] as int].present_ant != a) by {
                if !g0[e0[j] as int].is_destroyed() {
                    assert(g0[e0[j] as int].present_ant != g0[e0[pick as int] as int].present_ant);
                }
            }
            assert forall|j: int| 0 <= j < e0.len() && j != pick && j != pick implies weight(
                g1,
                mv1,
                #[trigger] e1[j],
            ) == weight(g0, mv0, e0[j]) by {
                assert(g1[e0[j] as int] == g0[e0[j] as int]);
            }
            lemma_pending_change(g0, mv0, e0, g1, mv1, e1, pick as int, pick as int);
            assert forall|v: int|
                0 <= v < g1.len() && !(#[trigger] g1[v]).is_destroyed() && g1[v].present_ant >= 0
                    && g1[v].neighbor_count > 0 implies e1.contains(v as usize) by {
                if v == t {
                    assert(e1[pick as int] == v);
                } else {
                    assert(g1[v] == g0[v]);
                    let j = choose|j: int| 0 <= j < e0.len() && e0[j] == v as usize;
                    assert(e1[j] == v);
                }
            }
            assert forall|i: int, j: int|
                0 <= i < e1.len() && 0 <= j < e1.len() && i != j && !g1[e1[i] as int].is_destroyed()
                    && !g1[e1[j] as int].is_destroyed() implies #[trigger] g1[e1[i] as int].present_ant
                != #[trigger] g1[e1[j] as int].present_ant by {
                if i != pick && j != pick {
                    assert(g1[e0[i] as int] == g0[e0[i] as int]);
                    assert(g1[e0[j] as int] == g0[e0[j] as int]);
                } else if i == pick {
                    assert(g1[e0[j] as int] == g0[e0[j] as int]);
                } else {
                    assert(g1[e0[i] as int] == g0[e0[i] as int]);
                }
            }
            assert forall|i: int|
                0 <= i < e1.len() && !g1[e1[i] as int].is_destroyed() implies 0
                <= #[trigger] g1[e1[i] as int].present_ant < ants.all_ants by {
                if i != pick {
                    assert(g1[e0[i] as int] == g0[e0[i] as int]);
                }
            }
            lemma_pending_nonneg(g1, mv1, e1);
        }
        if c1 == MOVES {
            ants.finished_or_dead_ants = ants.finished_or_dead_ants + 1;
        }
        None
    } else {
        let other = map.graph[target].present_ant;
        let ghost b = other;
        let ghost jb: int;
        proof {
            assert(t != s);
            lemma_has_slot_live(g0[t].neighbors@, s);
            assert(g0[t].present_ant >= 0);
            assert(e0.contains(t as usize));
            jb = choose|j: int| 0 <= j < e0.len() && e0[j] == t as usize;
            assert(g0[e0[jb] as int].present_ant != g0[e0[pick as int] as int].present_ant);
        }
        let ou = other as usize;
        let au = ant as usize;
        let mut inc: usize = 0;
        if ants.ant_to_moves[ou] < MOVES {
            inc = inc + 1;
        }
        if ants.ant_to_moves[au] < MOVES {
            inc = inc + 1;
        }
        ants.nodes_with_ants.swap_remove(pick);
        map.destroy(target);
        let ghost g1 = map.graph@;
        let ghost e1 = ants.nodes_with_ants@;
        proof {
            assert(e1 =~= swap_removed(e0, pick as int));
            assert forall|v: int| 0 <= v < g0.len() && v != t implies (#[trigger] g1[v]).is_destroyed()
                == g0[v].is_destroyed() && g1[v].present_ant == (if v == s {
                -1isize
            } else {
                g0[v].present_ant
            }) && g1[v].neighbor_count <= g0[v].neighbor_count by {
                if !gm[v].is_destroyed() && has_slot(gm[t].neighbors@, v) {
                    lemma_cut_count(gm[v].neighbors@, t);
                }
            }
            assert forall|j: int| 0 <= j < e0.len() && j != pick && j != jb implies weight(
                g1,
                mv0,
                #[trigger] e0[j],
            ) == weight(g0, mv0, e0[j]) by {
                if !g0[e0[j] as int].is_destroyed() {
                    assert(g0[e0[j] as int].present_ant != g0[e0[pick as int] as int].present_ant);
                    assert(g0[e0[j] as int].present_ant != g0[e0[jb] as int].present_ant);
                }
            }
            lemma_pending_change(g0, mv0, e0, g1, mv0, e0, pick as int, jb);
            lemma_pending_swap_remove(g1, mv0, e0, pick as int);
            lemma_pending_nonneg(g1, mv0, e1);
            assert forall|v: int|
                0 <= v < g1.len() && !(#[trigger] g1[v]).is_destroyed() && g1[v].present_ant >= 0
                    && g1[v].neighbor_count > 0 implies e1.contains(v as usize) by {
                assert(v != t && v != s);
                assert(e0.contains(v as usize));
                lemma_swap_removed_contains(e0, pick as int, v as usize);
            }
            assert forall|i: int, j: int|
                0 <= i < e1.len() && 0 <= j < e1.len() && i != j && !g1[e1[i] as int].is_destroyed()
                    && !g1[e1[j] as int].is_destroyed() implies #[trigger] g1[e1[i] as int].present_ant
                != #[trigger] g1[e1[j] as int].present_ant by {
                let ii = if i == pick { e0.len() - 1 } else { i };
                let jj = if j == pick { e0.len() - 1 } else { j };
                assert(e1[i] == e0[ii] && e1[j] == e0[jj]);
                assert(g0[e0[ii] as int].present_ant != g0[e0[jj] as int].present_ant);
            }
            assert forall|i: int|
                0 <= i < e1.len() && !g1[e1[i] as int].is_destroyed() implies 0
                <= #[trigger] g1[e1[i] as int].present_ant < ants.all_ants by {
                let ii = if i == pick { e0.len() - 1 } else { i };
                assert(e1[i] == e0[ii]);
            }
        }
        ants.finished_or_dead_ants = ants.finished_or_dead_ants + inc;
        Some(DestructionEvent { hive_index: target, ant1: ant, ant2: other })
    }
}

/// While some agent is not yet finished or dead, the active list is not empty,
/// so the simulation always has an agent to pick.
pub proof fn lemma_unfinished_has_active(map: &HiveMap, ants: &Ants)
    requires
        ants.wf(map),
        ants.finished_or_dead_ants < ants.all_ants,
    ensures
        ants.nodes_with_ants@.len() > 0,
{
    if ants.nodes_with_ants@.len() == 0 {
        assert(pending(map.graph@, ants.ant_to_moves@, ants.nodes_with_ants@) == 0);
    }
}

/// The termination count of a step never goes down, never passes the number
/// of agents, and every agent is counted once: the count plus the agents still
/// below the cap on live nodes is the number of agents.
pub proof fn lemma_step_count(
    m0: &HiveMap,
    a0: &Ants,
    pick: int,
    choice: int,
    m1: &HiveMap,
    a1: &Ants,
    r: Option<DestructionEvent>,
)
    requires
        a0.wf(m0),
        a1.wf(m1),
        a1.all_ants == a0.all_ants,
        stepped(m0, a0, pick, choice, m1, a1, r),
    ensures
        a0.finished_or_dead_ants <= a1.finished_or_dead_ants <= a1.all_ants,
        a1.finished_or_dead_ants + pending(m1.graph@, a1.ant_to_moves@, a1.nodes_with_ants@)
            == a1.all_ants,
{
}

/// An agent whose move reaches the cap on an empty neighbor is counted as
/// finished but stays on the board: its entry now names the node it moved to,
/// where it stands, so it can still be picked and can still collide.
pub proof fn lemma_cap_keeps_agent(
    m0: &HiveMap,
    a0: &Ants,
    pick: int,
    choice: int,
    m1: &HiveMap,
    a1: &Ants,
    r: Option<DestructionEvent>,
)
    requires
        m0.wf(),
        a0.wf(m0),
        0 <= pick < a0.nodes_with_ants@.len(),
        choice_ok(m0, a0, pick, choice),
        stepped(m0, a0, pick, choice, m1, a1, r),
        ({
            let src = m0.graph@[a0.nodes_with_ants@[pick] as int];
            &&& !src.is_destroyed()
            &&& src.neighbor_count > 0
            &&& m0.graph@[src.valid_neighbors@[choice] as int].present_ant == -1
            &&& a0.ant_to_moves@[src.present_ant as int] + 1 == MOVES
        }),
    ensures
        ({
            let src = m0.graph@[a0.nodes_with_ants@[pick] as int];
            let t = src.valid_neighbors@[choice];
            &&& r is None
            &&& a1.nodes_with_ants@.len() == a0.nodes_with_ants@.len()
            &&& a1.nodes_with_ants@[pick] == t
            &&& m1.graph@[t as int].present_ant == src.present_ant
            &&& a1.ant_to_moves@[src.present_ant as int] == MOVES
            &&& a1.finished_or_dead_ants == a0.finished_or_dead_ants + 1
        }),
{
    let g0 = m0.graph@;
    let s = a0.nodes_with_ants@[pick] as int;
    let k = lemma_live_slot(g0[s].neighbors@, choice);
    assert(g0[s].neighbors@[k] >= 0);
    assert(g0[s].wf(g0.len() as int));
}

/// Agent `a` stands on a live node of `g`.
pub open spec fn stands(g: Seq<Node>, a: int) -> bool {
    exists|v: int| 0 <= v < g.len() && !g[v].is_destroyed() && g[v].present_ant == a
}

/// Agent `a` took part in some event of `events`.
pub open spec fn is_event_agent(events: Seq<DestructionEvent>, a: int) -> bool {
    exists|k: int| 0 <= k < events.len() && (events[k].ant1 == a || events[k].ant2 == a)
}

/// Whether some event of `events` destroyed node `v`.
pub open spec fn is_event_node(events: Seq<DestructionEvent>, v: int) -> bool {
    exists|k: int| 0 <= k < events.len() && events[k].hive_index == v
}

/// No agent on the active list has a neighbor to move to: every entry is a
/// destroyed node or one without edges.
pub open spec fn no_agent_can_move(map: &HiveMap, ants: &Ants) -> bool {
    forall|i: int|
        0 <= i < ants.nodes_with_ants@.len() ==> map.graph@[#[trigger] ants.nodes_with_ants@[i] as int].neighbor_count
            <= 0
}

/// An agent standing on a live node before a step still stands on one after
/// it, unless it took part in the step's collision.
#[verifier::rlimit(50)]
pub proof fn lemma_step_keeps_standing(
    m0: &HiveMap,
    a0: &Ants,
    pick: int,
    choice: int,
    m1: &HiveMap,
    a1: &Ants,
    r: Option<DestructionEvent>,
    a: int,
)
    requires
        m0.wf(),
        a0.wf(m0),
        0 <= pick < a0.nodes_with_ants@.len(),
        choice_ok(m0, a0, pick, choice),
        stepped(m0, a0, pick, choice, m1, a1, r),
        a >= 0,
        stands(m0.graph@, a),
    ensures
        stands(m1.graph@, a) || (r matches Some(ev) && (ev.ant1 == a || ev.ant2 == a)),
{
    let g0 = m0.graph@;
    let g1 = m1.graph@;
    let s = a0.nodes_with_ants@[pick] as int;
    let v = choose|v: int| 0 <= v < g0.len() && !g0[v].is_destroyed() && g0[v].present_ant == a;
    if g0[s].is_destroyed() || g0[s].neighbor_count == 0 {
        assert(g1[v] == g0[v]);
    } else {
        let k = lemma_live_slot(g0[s].neighbors@, choice);
        assert(g0[s].neighbors@[k] >= 0);
        assert(g0[s].wf(g0.len() as int));
        let t = g0[s].valid_neighbors@[choice] as int;
        if t == s || g0[t].present_ant == -1 {
            if v == s {
                assert(!g1[t].is_destroyed() && g1[t].present_ant == a);
            } else {
                assert(v != t);
                assert(g1[v] == g0[v]);
            }
        } else if v != s && v != t {
            let gm = g0.update(s, with_ant(g0[s], -1isize));
            assert(gm[v] == g0[v]);
            assert(!g1[v].is_destroyed() && g1[v].present_ant == a);
        }
    }
}

/// Relies on fastrand::usize: a value drawn from the range `0..n`; the call
/// panics on an empty range.
#[verifier::external_body]
fn random_below(n: usize) -> (r: usize)
    requires
        n > 0,
    ensures
        r < n,
{
    fastrand::usize(..n)
}

/// Runs the simulation until every agent is finished or dead, and returns the
/// destructions in the order they happened. Each step picks a uniformly random
/// live agent and a uniformly random valid neighbor for it. (A run is also cut
/// off after `u64::MAX` steps, which no machine reaches.)
pub fn simulate(map: &mut HiveMap, ants: &mut Ants) -> (events: Vec<DestructionEvent>)
    requires
        old(map).wf(),
        old(ants).wf(old(map)),
    ensures
        final(map).wf(),
        final(ants).wf(final(map)),
        final(map).index_to_name == old(map).index_to_name,
        final(map).name_to_index == old(map).name_to_index,
        final(map).graph@.len() == old(map).graph@.len(),
        final(ants).all_ants == old(ants).all_ants,
        final(ants).finished_or_dead_ants >= old(ants).finished_or_dead_ants,
        forall|i: int|
            0 <= i < old(map).graph@.len() && old(map).graph@[i].is_destroyed() ==> #[trigger] final(map).graph@[i] == old(map).graph@[i],
        forall|k: int|
            0 <= k < events@.len() ==> #[trigger] events@[k].hive_index < final(map).graph@.len()
                && !old(map).graph@[events@[k].hive_index as int].is_destroyed() && final(map).graph@[events@[k].hive_index as int].is_destroyed(),
        forall|k1: int, k2: int|
            0 <= k1 < k2 < events@.len() ==> #[trigger] events@[k1].hive_index
                != #[trigger] events@[k2].hive_index,
        forall|k: int|
            0 <= k < events@.len() ==> 0 <= #[trigger] events@[k].ant1 < old(ants).all_ants && 0
                <= events@[k].ant2 < old(ants).all_ants && events@[k].ant1 != events@[k].ant2,
        forall|i: int|
            0 <= i < old(map).graph@.len() ==> (#[trigger] final(map).graph@[i]).is_destroyed() == (
            old(map).graph@[i].is_destroyed() || is_event_node(events@, i)),
        final(ants).ant_to_moves@.len() == old(ants).ant_to_moves@.len(),
        forall|i: int|
            0 <= i < old(ants).ant_to_moves@.len() ==> #[trigger] final(ants).ant_to_moves@[i]
                >= old(ants).ant_to_moves@[i],
        no_agent_can_move(old(map), old(ants)) ==> events@.len() == 0
            && final(ants).finished_or_dead_ants == final(ants).all_ants,
        forall|a: int|
            a >= 0 && #[trigger] stands(old(map).graph@, a) ==> stands(final(map).graph@, a) || is_event_agent(
                events@,
                a,
            ),
{
    let ghost g_start = map.graph@;
    let ghost mv_start = ants.ant_to_moves@;
    let ghost stuck = no_agent_can_move(map, ants);
    let len0: usize = ants.nodes_with_ants.len();
    let mut events: Vec<DestructionEvent> = Vec::new();
    let mut steps: u64 = 0;
    while ants.finished_or_dead_ants < ants.all_ants && steps < u64::MAX
        invariant
            map.wf(),
            ants.wf(map),
            map.index_to_name == old(map).index_to_name,
            map.name_to_index == old(map).name_to_index,
            map.graph@.len() == g_start.len(),
            g_start == old(map).graph@,
            ants.all_ants == old(ants).all_ants,
            ants.finished_or_dead_ants >= old(ants).finished_or_dead_ants,
            forall|i: int|
                0 <= i < g_start.len() && g_start[i].is_destroyed() ==> #[trigger] map.graph@[i]
                    == g_start[i],
            forall|k: int|
                0 <= k < events@.len() ==> #[trigger] events@[k].hive_index < map.graph@.len()
                    && !g_start[events@[k].hive_index as int].is_destroyed()
                    && map.graph@[events@[k].hive_index as int].is_destroyed(),
            forall|k1: int, k2: int|
                0 <= k1 < k2 < events@.len() ==> #[trigger] events@[k1].hive_index
                    != #[trigger] events@[k2].hive_index,
            forall|k: int|
                0 <= k < events@.len() ==> 0 <= #[trigger] events@[k].ant1 < old(ants).all_ants && 0
                    <= events@[k].ant2 < old(ants).all_ants && events@[k].ant1 != events@[k].ant2,
            forall|i: int|
                0 <= i < g_start.len() ==> (#[trigger] map.graph@[i]).is_destroyed() == (
                g_start[i].is_destroyed() || is_event_node(events@, i)),
            ants.ant_to_moves@.len() == mv_start.len(),
            mv_start == old(ants).ant_to_moves@,
            forall|i: int|
                0 <= i < mv_start.len() ==> #[trigger] ants.ant_to_moves@[i] >= mv_start[i],
            stuck == no_agent_can_move(old(map), old(ants)),
            len0 == old(ants).nodes_with_ants@.len(),
            stuck ==> events@.len() == 0 && no_agent_can_move(map, ants) && steps
                + ants.nodes_with_ants@.len() == len0,
            forall|a: int|
                a >= 0 && #[trigger] stands(g_start, a) ==> stands(map.graph@, a) || is_event_agent(events@, a),
        decreases u64::MAX - steps,
    {
        if ants.nodes_with_ants.len() == 0 {
            proof {
                assert(pending(map.graph@, ants.ant_to_moves@, ants.nodes_with_ants@) == 0);
            }
        }
        let pick = random_below(ants.nodes_with_ants.len());
        let idx = ants.nodes_with_ants[pick];
        let mut choice: usize = 0;
        if map.graph[idx].neighbor_count > 0 {
            choice = random_below(map.graph[idx].valid_neighbors.len());
        }
        let ghost g_before = map.graph@;
        let ghost n_before = events@.len();
        let ghost ev_before = events@;
        let ghost e_before = ants.nodes_with_ants@;
        let ghost m_before = *map;
        let ghost a_before = *ants;
        let r = step(map, ants, pick, choice);
        if let Some(ev) = r {
            events.push(ev);
        }
        proof {
            assert forall|a: int| a >= 0 && #[trigger] stands(g_start, a) implies stands(map.graph@, a) || is_event_agent(events@, a) by {
                if is_event_agent(ev_before, a) {
                    let k = choose|k: int| 0 <= k < ev_before.len() && (ev_before[k].ant1 == a || ev_before[k].ant2 == a);
                    assert(events@[k] == ev_before[k]);
                } else {
                    lemma_step_keeps_standing(&m_before, &a_before, pick as int, choice as int, map, ants, r, a);
                    if !stands(map.graph@, a) {
                        assert(events@[n_before as int].ant1 == a || events@[n_before as int].ant2 == a);
                    }
                }
            }
            assert forall|i: int| 0 <= i < g_start.len() implies (#[trigger] map.graph@[i]).is_destroyed() == (
                g_start[i].is_destroyed() || is_event_node(events@, i)) by {
                if is_event_node(ev_before, i) {
                    let k = choose|k: int| 0 <= k < ev_before.len() && ev_before[k].hive_index == i;
                    assert(events@[k] == ev_before[k]);
                }
                if is_event_node(events@, i) && !is_event_node(ev_before, i) {
                    let k = choose|k: int| 0 <= k < events@.len() && events@[k].hive_index == i;
                    assert(k == n_before);
                }
                if r is Some && i == events@[n_before as int].hive_index {
                    assert(events@[n_before as int].hive_index == i);
                }
            }
            if stuck {
                lemma_swap_removed_index(e_before, pick as int);
                assert forall|i: int| 0 <= i < ants.nodes_with_ants@.len() implies
                    map.graph@[#[trigger] ants.nodes_with_ants@[i] as int].neighbor_count <= 0 by {
                    let ii = if i == pick { e_before.len() - 1 } else { i };
                    assert(ants.nodes_with_ants@[i] == e_before[ii]);
                }
            }
            assert forall|k1: int, k2: int|
                0 <= k1 < k2 < events@.len() implies #[trigger] events@[k1].hive_index
                    != #[trigger] events@[k2].hive_index by {
                if k2 == n_before {
                    assert(g_before[events@[k1].hive_index as int].is_destroyed());
                }
            }
        }
        steps = steps + 1;
    }
    proof {
        if stuck && ants.finished_or_dead_ants < ants.all_ants {
            lemma_unfinished_has_active(map, ants);
            assert(usize::MAX <= u64::MAX);
            assert(steps == u64::MAX);
            assert(false);
        }
    }
    events
}

/// More agents were asked for than the map has nodes.
#[derive(Debug, Clone, Copy, PartialEq, Eq)]
pub struct PlacementError {
    pub requested: usize,
    pub available: usize,
}

/// Relies on fastrand::shuffle: it reorders the slice by swaps, so the
/// result holds the same items.
#[verifier::external_body]
fn shuffle_indices(v: &mut Vec<usize>)
    ensures
        final(v)@.to_multiset() == old(v)@.to_multiset(),
{
    fastrand::shuffle(v.as_mut_slice())
}

proof fn lemma_pending_all(g: Seq<Node>, m: Seq<u32>, s: Seq<usize>)
    requires
        forall|j: int| 0 <= j < s.len() ==> weight(g, m, #[trigger] s[j]) == 1,
    ensures
        pending(g, m, s) == s.len(),
    decreases s.len(),
{
    if s.len() > 0 {
        lemma_pending_all(g, m, s.drop_last());
    }
}

impl HiveMap {
    /// Every node is live and empty, as a freshly loaded map is.
    pub open spec fn is_fresh(&self) -> bool {
        forall|i: int|
            0 <= i < self.graph@.len() ==> !(#[trigger] self.graph@[i]).is_destroyed()
                && self.graph@[i].present_ant == -1
    }
}

/// `Seq` of `0, 1, .., n - 1`.
pub open spec fn index_seq(n: nat) -> Seq<usize> {
    Seq::new(n, |k: int| k as usize)
}

/// `Seq` of `n` zero move counts.
pub open spec fn zero_moves(n: nat) -> Seq<u32> {
    Seq::new(n, |k: int| 0u32)
}

/// `m1` and `ants` are `m0` after placing `num_ants` fresh agents: agent `k`
/// stands on the `k`-th entry, the entries are distinct, no other node
/// changed, and no node changed its edges.
pub open spec fn placed(m0: &HiveMap, m1: &HiveMap, ants: &Ants, num_ants: usize) -> bool {
    let e = ants.nodes_with_ants@;
    let g = m1.graph@;
    &&& m1.wf()
    &&& ants.wf(m1)
    &&& ants.all_ants == num_ants
    &&& ants.finished_or_dead_ants == 0
    &&& ants.ant_to_moves@ == zero_moves(num_ants as nat)
    &&& e.len() == num_ants
    &&& e.no_duplicates()
    &&& ants.nodes_with_ants_set@ == e.to_set()
    &&& forall|k: int| 0 <= k < e.len() ==> g[#[trigger] e[k] as int].present_ant == k
    &&& forall|i: int| 0 <= i < g.len() && !e.contains(i as usize) ==> #[trigger] g[i] == m0.graph@[i]
    &&& forall|i: int|
        0 <= i < g.len() ==> (#[trigger] g[i]).neighbors == m0.graph@[i].neighbors
            && g[i].valid_neighbors == m0.graph@[i].valid_neighbors && g[i].neighbor_count
            == m0.graph@[i].neighbor_count
}

/// Places `num_ants` agents on distinct nodes drawn at random: agent `k`
/// stands on the `k`-th entry of `nodes_with_ants`. Fails, leaving the map
/// as it was, when there are fewer nodes than agents.
#[verifier::rlimit(100)]
#[verifier::spinoff_prover]
pub fn place_ants(map: &mut HiveMap, num_ants: usize) -> (r: Result<Ants, PlacementError>)
    requires
        old(map).wf(),
        old(map).is_fresh(),
    ensures
        final(map).index_to_name == old(map).index_to_name,
        final(map).name_to_index == old(map).name_to_index,
        final(map).graph@.len() == old(map).graph@.len(),
        (num_ants > old(map).graph@.len()) == (r is Err),
        r matches Err(e) ==> (e == (PlacementError {
            requested: num_ants,
            available: old(map).graph@.len() as usize,
        })) && final(map).graph@ == old(map).graph@,
        r matches Ok(ants) ==> placed(old(map), final(map), &ants, num_ants),
{
    broadcast use vstd::std_specs::hash::group_hash_axioms;
    let n = map.graph.len();
    if num_ants > n {
        return Err(PlacementError { requested: num_ants, available: n });
    }
    let mut valid: Vec<usize> = Vec::new();
    let mut i: usize = 0;
    while i < n
        invariant
            0 <= i <= n,
            valid@ == index_seq(i as nat),
        decreases n - i,
    {
        valid.push(i);
        assert(valid@ =~= index_seq((i + 1) as nat));
        i = i + 1;
    }
    let ghost ordered = valid@;
    shuffle_indices(&mut valid);
    proof {
        assert(ordered.no_duplicates());
        ordered.to_multiset_ensures();
        valid@.to_multiset_ensures();
        ordered.lemma_multiset_has_no_duplicates();
        valid@.lemma_multiset_has_no_duplicates_conv();
        assert forall|k: int| 0 <= k < valid@.len() implies #[trigger] valid@[k] < n by {
            assert(valid@.to_multiset().count(valid@[k]) > 0);
            assert(ordered.to_multiset().count(valid@[k]) > 0);
            assert(ordered.contains(valid@[k]));
        }
        assert(valid@.len() == valid@.to_multiset().len());
    }
    let ghost g0 = map.graph@;
    let mut placed: Vec<usize> = Vec::new();
    let mut placed_set: HashSet<usize> = HashSet::new();
    let mut moves: Vec<u32> = Vec::new();
    let mut k: usize = 0;
    while k < num_ants
        invariant
            0 <= k <= num_ants <= n <= isize::MAX,
            n == g0.len() == map.graph@.len(),
            valid@.len() == n,
            valid@.no_duplicates(),
            forall|j: int| 0 <= j < n ==> #[trigger] valid@[j] < n,
            placed@ == valid@.take(k as int),
            placed_set@ == placed@.to_set(),
            moves@ == zero_moves(k as nat),
            map.index_to_name == old(map).index_to_name,
            map.name_to_index == old(map).name_to_index,
            forall|j: int| 0 <= j < k ==> map.graph@[#[trigger] placed@[j] as int].present_ant == j,
            forall|v: int|
                0 <= v < n && !placed@.contains(v as usize) ==> #[trigger] map.graph@[v] == g0[v],
            forall|v: int|
                0 <= v < n ==> (#[trigger] map.graph@[v]).neighbors == g0[v].neighbors
                    && map.graph@[v].valid_neighbors == g0[v].valid_neighbors
                    && map.graph@[v].neighbor_count == g0[v].neighbor_count,
        decreases num_ants - k,
    {
        let index = valid[k];
        let ghost before = map.graph@;
        let ghost placed_before = placed@;
        proof {
            assert(!placed@.contains(index)) by {
                if placed@.contains(index) {
                    let j = choose|j: int| 0 <= j < placed@.len() && placed@[j] == index;
                    assert(valid@[j] == valid@[k as int]);
                }
            }
        }
        map.graph[index].present_ant = k as isize;
        placed.push(index);
        placed_set.insert(index);
        moves.push(0);
        proof {
            assert(placed@ =~= valid@.take(k + 1));
            assert(moves@ =~= zero_moves((k + 1) as nat));
            Seq::lemma_to_set_insert_commutes(placed_before, index);
            assert(placed_before + seq![index] =~= placed@);
            assert forall|v: int|
                0 <= v < n && !placed@.contains(v as usize) implies #[trigger] map.graph@[v] == g0[v] by {
                assert(placed@[k as int] == index);
                if placed_before.contains(v as usize) {
                    let j = choose|j: int| 0 <= j < placed_before.len() && placed_before[j] == v as usize;
                    assert(placed@[j] == v as usize);
                }
            }
            assert forall|j: int| 0 <= j < k + 1 implies map.graph@[#[trigger] placed@[j] as int].present_ant == j by {
                if j < k {
                    assert(placed_before[j] != index);
                    assert(before[placed_before[j] as int].present_ant == j);
                }
            }
        }
        k = k + 1;
    }
    let ants = Ants {
        nodes_with_ants: placed,
        nodes_with_ants_set: placed_set,
        all_ants: num_ants,
        finished_or_dead_ants: 0,
        ant_to_moves: moves,
    };
    proof {
        let g = map.graph@;
        let e = ants.nodes_with_ants@;
        assert forall|i: int| 0 <= i < n implies (#[trigger] g[i]).wf(n as int) && !g[i].is_destroyed() by {
            assert(g0[i].wf(n as int));
            if e.contains(i as usize) {
                let j = choose|j: int| 0 <= j < e.len() && e[j] == i as usize;
                assert(g[e[j] as int].present_ant == j);
            }
        }
        assert(map.wf());
        assert(e.no_duplicates());
        assert forall|j: int| 0 <= j < e.len() implies weight(g, moves@, #[trigger] e[j]) == 1 by {
            assert(g[e[j] as int].present_ant == j);
        }
        lemma_pending_all(g, moves@, e);
        assert forall|i: int, j: int|
            0 <= i < e.len() && 0 <= j < e.len() && i != j && !g[e[i] as int].is_destroyed()
                && !g[e[j] as int].is_destroyed() implies #[trigger] g[e[i] as int].present_ant
            != #[trigger] g[e[j] as int].present_ant by {}
        assert forall|i: int| 0 <= i < e.len() && !g[e[i] as int].is_destroyed() implies 0
            <= #[trigger] g[e[i] as int].present_ant < num_ants by {}
        assert forall|t: int|
            0 <= t < g.len() && !(#[trigger] g[t]).is_destroyed() && g[t].present_ant >= 0
                && g[t].neighbor_count > 0 implies e.contains(t as usize) by {
            if !e.contains(t as usize) {
                assert(g[t] == g0[t]);
            }
        }
        assert(ants.wf(map));
    }
    Ok(ants)
}

} // verus!
