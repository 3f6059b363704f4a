use std::collections::HashMap;
use vstd::prelude::*;

verus! {

/// One location of the map, with up to four neighbors (north, west, south, east).
#[derive(Debug)]
pub struct Node {
    /// Number of non-empty neighbor slots, or -1 once the node is destroyed.
    pub neighbor_count: i8,
    /// Neighbor index per direction (north, west, south, east); -1 is no neighbor.
    pub neighbors: [isize; 4],
    /// The non-empty slots of `neighbors`, in slot order.
    pub valid_neighbors: Vec<usize>,
    /// Id of the agent on this node, or -1.
    pub present_ant: isize,
}

/// The map: node names, their lookup table, and the nodes themselves.
pub struct HiveMap {
    pub index_to_name: Vec<String>,
    pub name_to_index: HashMap<String, usize>,
    pub graph: Vec<Node>,
}

/// The one-element sequence of a slot that holds a neighbor, else empty.
pub open spec fn slot_seq(x: isize) -> Seq<usize> {
    if x >= 0 {
        seq![x as usize]
    } else {
        Seq::empty()
    }
}

/// The neighbors named by four slots, in slot order.
pub open spec fn live_slots(s: Seq<isize>) -> Seq<usize> {
    slot_seq(s[0]) + slot_seq(s[1]) + slot_seq(s[2]) + slot_seq(s[3])
}

/// Whether one of four slots names `v`.
pub open spec fn has_slot(s: Seq<isize>, v: int) -> bool {
    s[0] == v || s[1] == v || s[2] == v || s[3] == v
}

/// The slots with every entry naming `t` emptied.
pub open spec fn cut(s: Seq<isize>, t: int) -> Seq<isize> {
    s.map_values(|x: isize| if x == t { -1isize } else { x })
}

impl Node {
    pub open spec fn is_destroyed(&self) -> bool {
        self.neighbor_count == -1
    }

    /// A node is consistent with a map of `n` nodes: a destroyed node is empty;
    /// a live one caches its non-empty slots and counts them.
    pub open spec fn wf(&self, n: int) -> bool {
        &&& self.present_ant >= -1
        &&& if self.is_destroyed() {
            self.valid_neighbors@.len() == 0 && self.present_ant == -1
        } else {
            &&& forall|k: int| 0 <= k < 4 ==> -1 <= #[trigger] self.neighbors@[k] < n
            &&& self.valid_neighbors@ == live_slots(self.neighbors@)
            &&& self.neighbor_count == live_slots(self.neighbors@).len()
        }
    }

    /// `self` is `prev` with every slot naming `t` emptied and its cache rebuilt.
    pub open spec fn is_cut_of(&self, prev: Node, t: int) -> bool {
        &&& self.neighbors@ == cut(prev.neighbors@, t)
        &&& self.valid_neighbors@ == live_slots(self.neighbors@)
        &&& self.neighbor_count == live_slots(self.neighbors@).len()
        &&& self.present_ant == prev.present_ant
    }
}

impl HiveMap {
    /// Every node is consistent, and every edge of a live node leads to a live
    /// node that has the edge back.
    pub open spec fn wf(&self) -> bool {
        let g = self.graph@;
        &&& g.len() <= isize::MAX
        &&& forall|i: int| 0 <= i < g.len() ==> (#[trigger] g[i]).wf(g.len() as int)
        &&& forall|i: int, k: int|
            0 <= i < g.len() && 0 <= k < 4 && !g[i].is_destroyed() && #[trigger] g[i].neighbors@[k] >= 0
                ==> {
                let j = g[i].neighbors@[k] as int;
                !g[j].is_destroyed() && has_slot(g[j].neighbors@, i)
            }
    }
}

/// Whether one of the first `k` of four slots names `v`.
pub open spec fn in_first(s: Seq<isize>, v: int, k: int) -> bool {
    (k > 0 && s[0] == v) || (k > 1 && s[1] == v) || (k > 2 && s[2] == v) || (k > 3 && s[3] == v)
}

proof fn lemma_cut_twice(s: Seq<isize>, t: int)
    ensures
        cut(cut(s, t), t) == cut(s, t),
{
    assert(cut(cut(s, t), t) =~= cut(s, t));
}

pub proof fn lemma_cut_slots(s: Seq<isize>, t: int)
    requires
        s.len() == 4,
    ensures
        cut(s, t).len() == 4,
        forall|k: int| 0 <= k < 4 ==> #[trigger] cut(s, t)[k] == if s[k] == t { -1isize } else { s[k] },
        forall|v: int| v >= 0 ==> (has_slot(cut(s, t), v) <==> has_slot(s, v) && v != t),
{
}

pub proof fn lemma_cut_count(s: Seq<isize>, t: int)
    requires
        s.len() == 4,
    ensures
        live_slots(cut(s, t)).len() <= live_slots(s).len(),
{
    lemma_cut_slots(s, t);
}

pub proof fn lemma_has_slot_live(s: Seq<isize>, v: int)
    requires
        s.len() == 4,
        v >= 0,
        has_slot(s, v),
    ensures
        live_slots(s).len() > 0,
{
}

/// Slot index of the `c`-th live neighbor.
pub proof fn lemma_live_slot(s: Seq<isize>, c: int) -> (k: int)
    requires
        s.len() == 4,
        0 <= c < live_slots(s).len(),
    ensures
        0 <= k < 4,
        s[k] >= 0,
        s[k] as usize == live_slots(s)[c],
{
    let a = slot_seq(s[0]);
    let b = slot_seq(s[1]);
    let d = slot_seq(s[2]);
    let f = slot_seq(s[3]);
    if c < a.len() {
        0
    } else if c < a.len() + b.len() {
        1
    } else if c < a.len() + b.len() + d.len() {
        2
    } else {
        3
    }
}

/// In a well-formed map, a live node's list of valid neighbors is as long as
/// its degree, and each entry is a live node.
pub proof fn lemma_degree_matches_neighbors(map: &HiveMap, i: int)
    requires
        map.wf(),
        0 <= i < map.graph@.len(),
        !map.graph@[i].is_destroyed(),
    ensures
        map.graph@[i].valid_neighbors@.len() == map.graph@[i].neighbor_count,
        forall|c: int|
            0 <= c < map.graph@[i].valid_neighbors@.len() ==> #[trigger] map.graph@[i].valid_neighbors@[c]
                < map.graph@.len() && !map.graph@[map.graph@[i].valid_neighbors@[c] as int].is_destroyed(),
{
    let g = map.graph@;
    assert(g[i].wf(g.len() as int));
    assert forall|c: int| 0 <= c < g[i].valid_neighbors@.len() implies #[trigger] g[i].valid_neighbors@[c]
        < g.len() && !g[g[i].valid_neighbors@[c] as int].is_destroyed() by {
        let k = lemma_live_slot(g[i].neighbors@, c);
        assert(g[i].neighbors@[k] >= 0);
    }
}

/// In a well-formed map no live node lists a destroyed node as a neighbor,
/// in its slots or in its list of valid neighbors.
pub proof fn lemma_destroyed_unreachable(map: &HiveMap, t: int)
    requires
        map.wf(),
        0 <= t < map.graph@.len(),
        map.graph@[t].is_destroyed(),
    ensures
        forall|i: int, k: int|
            0 <= i < map.graph@.len() && 0 <= k < 4 && !map.graph@[i].is_destroyed() ==> #[trigger] map.graph@[i].neighbors@[k] != t,
        forall|i: int, c: int|
            0 <= i < map.graph@.len() && !map.graph@[i].is_destroyed() && 0 <= c
                < map.graph@[i].valid_neighbors@.len() ==> #[trigger] map.graph@[i].valid_neighbors@[c] != t,
{
    let g = map.graph@;
    assert forall|i: int, c: int|
        0 <= i < g.len() && !g[i].is_destroyed() && 0 <= c < g[i].valid_neighbors@.len() implies #[trigger] g[i].valid_neighbors@[c] != t by {
        lemma_degree_matches_neighbors(map, i);
    }
    assert forall|i: int, k: int|
        0 <= i < g.len() && 0 <= k < 4 && !g[i].is_destroyed() implies #[trigger] g[i].neighbors@[k] != t by {
        if g[i].neighbors@[k] >= 0 {
            assert(!g[g[i].neighbors@[k] as int].is_destroyed());
        }
    }
}

impl HiveMap {
    /// Empties every slot of node `j` that names `t`, unless `j` is destroyed.
    fn sever(&mut self, j: usize, t: usize)
        requires
            j < old(self).graph@.len(),
            t < old(self).graph@.len() <= isize::MAX,
            old(self).graph@[j as int].wf(old(self).graph@.len() as int),
        ensures
            final(self).graph@.len() == old(self).graph@.len(),
            final(self).index_to_name == old(self).index_to_name,
            final(self).name_to_index == old(self).name_to_index,
            forall|i: int| 0 <= i < old(self).graph@.len() && i != j ==> final(self).graph@[i] == old(self).graph@[i],
            old(self).graph@[j as int].is_destroyed() ==> final(self).graph@[j as int] == old(self).graph@[j as int],
            !old(self).graph@[j as int].is_destroyed() ==> final(self).graph@[j as int].is_cut_of(old(self).graph@[j as int], t as int),
    {
        if self.graph[j].neighbor_count != -1 {
            let mut slots = self.graph[j].neighbors;
            let ghost orig = slots@;
            proof { lemma_cut_slots(orig, t as int); }
            let mut k: usize = 0;
            while k < 4
                invariant
                    0 <= k <= 4,
                    t <= isize::MAX,
                    orig.len() == 4,
                    forall|m: int| 0 <= m < k ==> #[trigger] slots@[m] == cut(orig, t as int)[m],
                    forall|m: int| k <= m < 4 ==> #[trigger] slots@[m] == orig[m],
                decreases 4 - k,
            {
                if slots[k] == t as isize {
                    slots[k] = -1;
                }
                k = k + 1;
            }
            assert(slots@ =~= cut(orig, t as int));
            let valid = live_neighbors(&slots);
            let count = valid.len() as i8;
            self.graph[j].neighbors = slots;
            self.graph[j].valid_neighbors = valid;
            self.graph[j].neighbor_count = count;
        }
    }
}

/// `g1` is `g0` after destroying node `t`: `t` is destroyed and empty, each live
/// node that `t` names has lost its slots naming `t`, and every other node is as it was.
pub open spec fn is_destruction(g0: Seq<Node>, g1: Seq<Node>, t: int) -> bool {
    &&& g1.len() == g0.len()
    &&& g1[t].is_destroyed()
    &&& g1[t].present_ant == -1
    &&& g1[t].valid_neighbors@.len() == 0
    &&& forall|i: int|
        0 <= i < g0.len() && i != t ==> if !g0[i].is_destroyed() && has_slot(g0[t].neighbors@, i) {
            (#[trigger] g1[i]).is_cut_of(g0[i], t)
        } else {
            g1[i] == g0[i]
        }
}

impl HiveMap {
    /// Destroys live node `t`: it loses its agent and its cache of neighbors,
    /// and every neighbor it names loses its slots that lead back to `t`.
    pub fn destroy(&mut self, t: usize)
        requires
            old(self).wf(),
            t < old(self).graph@.len(),
            !old(self).graph@[t as int].is_destroyed(),
        ensures
            final(self).wf(),
            final(self).graph@.len() == old(self).graph@.len(),
            final(self).index_to_name == old(self).index_to_name,
            final(self).name_to_index == old(self).name_to_index,
            is_destruction(old(self).graph@, final(self).graph@, t as int),
            forall|i: int, k: int|
                0 <= i < final(self).graph@.len() && 0 <= k < 4 && !final(self).graph@[i].is_destroyed()
                    ==> #[trigger] final(self).graph@[i].neighbors@[k] != t,
    {
        let ghost g0 = self.graph@;
        let n = self.graph.len();
        let slots = self.graph[t].neighbors;
        self.graph[t].present_ant = -1;
        self.graph[t].neighbor_count = -1;
        self.graph[t].valid_neighbors = Vec::new();
        let mut k: usize = 0;
        while k < 4
            invariant
                0 <= k <= 4,
                t < n,
                n == g0.len() == self.graph@.len(),
                n <= isize::MAX,
                slots@ == g0[t as int].neighbors@,
                forall|m: int| 0 <= m < 4 ==> -1 <= #[trigger] slots@[m] < n,
                forall|i: int| 0 <= i < n ==> (#[trigger] g0[i]).wf(n as int),
                self.index_to_name == old(self).index_to_name,
                self.name_to_index == old(self).name_to_index,
                self.graph@[t as int].is_destroyed(),
                self.graph@[t as int].present_ant == -1,
                self.graph@[t as int].valid_neighbors@.len() == 0,
                forall|i: int|
                    0 <= i < n && i != t ==> if !g0[i].is_destroyed() && in_first(slots@, i, k as int) {
                        (#[trigger] self.graph@[i]).is_cut_of(g0[i], t as int)
                    } else {
                        self.graph@[i] == g0[i]
                    },
            decreases 4 - k,
        {
            let j = slots[k];
            if j >= 0 {
                let ghost before = self.graph@;
                self.sever(j as usize, t);
                proof {
                    let ju = j as int;
                    if ju != t && !g0[ju].is_destroyed() && in_first(slots@, ju, k as int) {
                        lemma_cut_twice(g0[ju].neighbors@, t as int);
                    }
                }
            }
            k = k + 1;
        }
        proof {
            let g = self.graph@;
            assert forall|i: int| 0 <= i < n implies (#[trigger] g[i]).wf(n as int) by {
                if i != t && !g0[i].is_destroyed() && has_slot(slots@, i) {
                    lemma_cut_slots(g0[i].neighbors@, t as int);
                }
            }
            assert forall|i: int, k: int|
                0 <= i < n && 0 <= k < 4 && !g[i].is_destroyed() && #[trigger] g[i].neighbors@[k] >= 0
                implies {
                    let j = g[i].neighbors@[k] as int;
                    !g[j].is_destroyed() && has_slot(g[j].neighbors@, i)
                } && g[i].neighbors@[k] != t by {
                lemma_cut_slots(g0[i].neighbors@, t as int);
                let j = g0[i].neighbors@[k] as int;
                assert(!g0[i].is_destroyed());
                if g0[i].neighbors@[k] == t {
                    assert(has_slot(slots@, i));
                } else {
                    assert(g[i].neighbors@[k] == g0[i].neighbors@[k]);
                    assert(g0[i].neighbors@[k] >= 0);
                    assert(!g0[j].is_destroyed() && has_slot(g0[j].neighbors@, i));
                    lemma_cut_slots(g0[j].neighbors@, t as int);
                    if j == t {
                        assert(has_slot(slots@, i));
                        assert(false);
                    }
                }
            }
        }
    }
}

impl Node {
    /// Whether this node is consistent with a map of `n` nodes.
    pub fn is_consistent(&self, n: usize) -> (r: bool)
        requires
            n <= isize::MAX,
        ensures
            r == self.wf(n as int),
    {
        if self.present_ant < -1 {
            return false;
        }
        if self.neighbor_count == -1 {
            return self.valid_neighbors.len() == 0 && self.present_ant == -1;
        }
        let mut k: usize = 0;
        while k < 4
            invariant
                0 <= k <= 4,
                n <= isize::MAX,
                !self.is_destroyed(),
                forall|m: int| 0 <= m < k ==> -1 <= #[trigger] self.neighbors@[m] < n,
            decreases 4 - k,
        {
            let x = self.neighbors[k];
            if x < -1 || x >= n as isize {
                assert(!(-1 <= self.neighbors@[k as int] < n));
                return false;
            }
            k = k + 1;
        }
        let expected = live_neighbors(&self.neighbors);
        if expected.len() != self.valid_neighbors.len() || self.neighbor_count < 0 || self.neighbor_count as usize != expected.len() {
            return false;
        }
        let mut c: usize = 0;
        while c < expected.len()
            invariant
                0 <= c <= expected@.len(),
                expected@ == live_slots(self.neighbors@),
                expected@.len() == self.valid_neighbors@.len(),
                forall|m: int| 0 <= m < c ==> #[trigger] expected@[m] == self.valid_neighbors@[m],
            decreases expected.len() - c,
        {
            if expected[c] != self.valid_neighbors[c] {
                assert(expected@[c as int] != self.valid_neighbors@[c as int]);
                return false;
            }
            c = c + 1;
        }
        assert(expected@ =~= self.valid_neighbors@);
        true
    }
}

impl HiveMap {
    /// Whether the map is well formed (see `wf`): the simulation asks for it.
    pub fn is_consistent(&self) -> (r: bool)
        ensures
            r == self.wf(),
    {
        let n = self.graph.len();
        if n > isize::MAX as usize {
            return false;
        }
        let mut i: usize = 0;
        while i < n
            invariant
                0 <= i <= n <= isize::MAX,
                n == self.graph@.len(),
                forall|m: int| 0 <= m < i ==> (#[trigger] self.graph@[m]).wf(n as int),
            decreases n - i,
        {
            if !self.graph[i].is_consistent(n) {
                return false;
            }
            i = i + 1;
        }
        let mut i: usize = 0;
        while i < n
            invariant
                0 <= i <= n <= isize::MAX,
                n == self.graph@.len(),
                forall|m: int| 0 <= m < n ==> (#[trigger] self.graph@[m]).wf(n as int),
                forall|m: int, k: int|
                    0 <= m < i && 0 <= k < 4 && !self.graph@[m].is_destroyed()
                        && #[trigger] self.graph@[m].neighbors@[k] >= 0 ==> {
                        let j = self.graph@[m].neighbors@[k] as int;
                        !self.graph@[j].is_destroyed() && has_slot(self.graph@[j].neighbors@, m)
                    },
            decreases n - i,
        {
            if self.graph[i].neighbor_count != -1 {
                let mut k: usize = 0;
                while k < 4
                    invariant
                        0 <= k <= 4,
                        0 <= i < n <= isize::MAX,
                        n == self.graph@.len(),
                        !self.graph@[i as int].is_destroyed(),
                        forall|m: int| 0 <= m < n ==> (#[trigger] self.graph@[m]).wf(n as int),
                        forall|q: int|
                            0 <= q < k && #[trigger] self.graph@[i as int].neighbors@[q] >= 0 ==> {
                                let j = self.graph@[i as int].neighbors@[q] as int;
                                !self.graph@[j].is_destroyed() && has_slot(self.graph@[j].neighbors@, i as int)
                            },
                    decreases 4 - k,
                {
                    let x = self.graph[i].neighbors[k];
                    if x >= 0 {
                        assert(self.graph@[i as int].wf(n as int));
                        let j = x as usize;
                        let back = &self.graph[j].neighbors;
                        let me = i as isize;
                        if self.graph[j].neighbor_count == -1 || !(back[0] == me || back[1] == me
                            || back[2] == me || back[3] == me) {
                            return false;
                        }
                    }
                    k = k + 1;
                }
            }
            i = i + 1;
        }
        true
    }
}

/// The non-empty slots, in slot order.
pub fn live_neighbors(slots: &[isize; 4]) -> (r: Vec<usize>)
    requires
        forall|k: int| 0 <= k < 4 ==> -1 <= #[trigger] slots@[k],
    ensures
        r@ == live_slots(slots@),
{
    let mut r: Vec<usize> = Vec::new();
    let mut k: usize = 0;
    while k < 4
        invariant
            0 <= k <= 4,
            forall|m: int| 0 <= m < 4 ==> -1 <= #[trigger] slots@[m],
            r@ == (if k >= 1 { slot_seq(slots@[0]) } else { Seq::empty() }) + (if k >= 2 {
                slot_seq(slots@[1])
            } else {
                Seq::empty()
            }) + (if k >= 3 { slot_seq(slots@[2]) } else { Seq::empty() }) + (if k >= 4 {
                slot_seq(slots@[3])
            } else {
                Seq::empty()
            }),
        decreases 4 - k,
    {
        let x = slots[k];
        if x >= 0 {
            r.push(x as usize);
        }
        proof {
            assert(r@ =~= (if k + 1 >= 1 { slot_seq(slots@[0]) } else { Seq::empty() }) + (if k + 1 >= 2 {
                slot_seq(slots@[1])
            } else {
                Seq::empty()
            }) + (if k + 1 >= 3 { slot_seq(slots@[2]) } else { Seq::empty() }) + (if k + 1 >= 4 {
                slot_seq(slots@[3])
            } else {
                Seq::empty()
            }));
        }
        k = k + 1;
    }
    assert(r@ =~= live_slots(slots@));
    r
}

} // verus!
