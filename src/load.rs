use std::collections::HashMap;
use vstd::prelude::*;
use crate::graph::{HiveMap, Node, live_neighbors};

verus! {

/// One line of the map format, split into its node name and its
/// `direction=target` connections.
pub struct HiveLine {
    pub name: String,
    pub connections: Vec<(String, String)>,
}

/// Why a map description was refused.
#[derive(Debug, Clone, PartialEq, Eq)]
pub enum LoadError {
    /// Two lines declare a node of this name.
    DuplicateName(String),
}

/// Slot of a direction word: north, west, south, east.
pub open spec fn dir_slot(d: Seq<char>) -> Option<usize> {
    if d == "north"@ {
        Some(0usize)
    } else if d == "west"@ {
        Some(1usize)
    } else if d == "south"@ {
        Some(2usize)
    } else if d == "east"@ {
        Some(3usize)
    } else {
        None
    }
}

/// The slot of a direction word, or `None` for an unknown word.
pub fn direction_slot(d: &String) -> (r: Option<usize>)
    ensures
        r == dir_slot(d@),
{
    proof {
        reveal_strlit("north");
        reveal_strlit("west");
        reveal_strlit("south");
        reveal_strlit("east");
    }
    if *d == "north".to_owned() {
        Some(0)
    } else if *d == "west".to_owned() {
        Some(1)
    } else if *d == "south".to_owned() {
        Some(2)
    } else if *d == "east".to_owned() {
        Some(3)
    } else {
        None
    }
}

/// What a name table holds: each name's text and the index stored under it.
pub uninterp spec fn name_table(m: HashMap<String, usize>) -> Map<Seq<char>, usize>;

/// The table with no names.
pub open spec fn no_names() -> Map<Seq<char>, usize> {
    Map::empty()
}

/// Relies on HashMap::new: an empty table.
#[verifier::external_body]
fn table_new() -> (r: HashMap<String, usize>)
    ensures
        name_table(r) == no_names(),
{
    HashMap::new()
}

/// Relies on HashMap::insert: `name` now maps to `index`; a `String` key is
/// hashed and compared by its text.
#[verifier::external_body]
fn table_insert(m: &mut HashMap<String, usize>, name: String, index: usize)
    ensures
        name_table(*final(m)) == name_table(*old(m)).insert(name@, index),
{
    m.insert(name, index);
}

/// Relies on HashMap::get: the index stored under the text of `name`, if any.
#[verifier::external_body]
fn table_get(m: &HashMap<String, usize>, name: &String) -> (r: Option<usize>)
    ensures
        r == (if name_table(*m).contains_key(name@) {
            Some(name_table(*m)[name@])
        } else {
            None
        }),
{
    m.get(name).copied()
}

/// Line `j` declares the name `t`.
pub open spec fn declares(lines: Seq<HiveLine>, t: Seq<char>, j: int) -> bool {
    0 <= j < lines.len() && lines[j].name@ == t
}

/// No two lines declare the same name.
pub open spec fn distinct_names(lines: Seq<HiveLine>) -> bool {
    forall|i: int, j: int| 0 <= i < j < lines.len() ==> #[trigger] lines[i].name@ != #[trigger] lines[j].name@
}

/// Slot `k` after the first `c` connections of a line: the line of the target
/// of the last one with direction `k` and a declared target, else -1.
pub open spec fn slot_after(lines: Seq<HiveLine>, conns: Seq<(String, String)>, k: int, c: nat) -> isize
    decreases c,
{
    if c == 0 {
        -1isize
    } else {
        let prev = slot_after(lines, conns, k, (c - 1) as nat);
        let t = conns[c - 1].1@;
        if dir_slot(conns[c - 1].0@) == Some(k as usize) && exists|j: int| declares(lines, t, j) {
            (choose|j: int| declares(lines, t, j)) as isize
        } else {
            prev
        }
    }
}

/// Builds the map that `lines` describe: node `i` is the `i`-th line; each
/// connection with a known direction and a declared target fills that
/// direction's slot (a later one of the same direction wins), and the rest are
/// dropped. All nodes start live and empty. Two lines with one name are refused.
pub fn load_lines(lines: &Vec<HiveLine>) -> (r: Result<HiveMap, LoadError>)
    requires
        lines@.len() <= isize::MAX,
    ensures
        r is Err <==> !distinct_names(lines@),
        r matches Err(LoadError::DuplicateName(n)) ==> exists|i: int, j: int|
            0 <= i < j < lines@.len() && #[trigger] lines@[i].name@ == n@ && #[trigger] lines@[j].name@ == n@,
        r matches Ok(map) ==> {
            &&& map.graph@.len() == lines@.len()
            &&& map.index_to_name@.len() == lines@.len()
            &&& map.is_fresh()
            &&& forall|i: int| 0 <= i < lines@.len() ==> #[trigger] map.index_to_name@[i]@ == lines@[i].name@
            &&& forall|i: int| 0 <= i < lines@.len() ==> (#[trigger] map.graph@[i]).wf(lines@.len() as int)
            &&& forall|i: int, k: int|
                0 <= i < lines@.len() && 0 <= k < 4 ==> #[trigger] map.graph@[i].neighbors@[k] == slot_after(
                    lines@,
                    lines@[i].connections@,
                    k,
                    lines@[i].connections@.len(),
                )
            &&& forall|i: int| 0 <= i < lines@.len() ==> name_table(map.name_to_index).contains_key(#[trigger] lines@[i].name@)
                && name_table(map.name_to_index)[lines@[i].name@] == i
            &&& forall|t: Seq<char>| #[trigger] name_table(map.name_to_index).contains_key(t) ==> exists|i: int| declares(lines@, t, i)
        },
{
    let n = lines.len();
    let mut names: Vec<String> = Vec::new();
    let mut index: HashMap<String, usize> = table_new();
    let mut i: usize = 0;
    while i < n
        invariant
            0 <= i <= n == lines@.len(),
            names@.len() == i,
            forall|m: int| 0 <= m < i ==> #[trigger] names@[m]@ == lines@[m].name@,
            forall|a: int, b: int| 0 <= a < b < i ==> #[trigger] lines@[a].name@ != #[trigger] lines@[b].name@,
            forall|m: int| 0 <= m < i ==> name_table(index).contains_key(#[trigger] lines@[m].name@)
                && name_table(index)[lines@[m].name@] == m,
            forall|t: Seq<char>| #[trigger] name_table(index).contains_key(t) ==> exists|m: int| 0 <= m < i && lines@[m].name@ == t,
        decreases n - i,
    {
        let name = &lines[i].name;
        match table_get(&index, name) {
            Some(j) => {
                proof {
                    let m = choose|m: int| 0 <= m < i && lines@[m].name@ == name@;
                    assert(lines@[m].name@ == lines@[i as int].name@);
                    assert(!distinct_names(lines@));
                }
                return Err(LoadError::DuplicateName(name.clone()));
            },
            None => {},
        }
        names.push(name.clone());
        table_insert(&mut index, name.clone(), i);
        proof {
            assert forall|t: Seq<char>| #[trigger] name_table(index).contains_key(t) implies exists|m: int| 0 <= m < i + 1 && lines@[m].name@ == t by {
                if t != lines@[i as int].name@ {
                    let m = choose|m: int| 0 <= m < i && lines@[m].name@ == t;
                    assert(0 <= m < i + 1 && lines@[m].name@ == t);
                } else {
                    assert(lines@[i as int].name@ == t);
                }
            }
            assert forall|a: int, b: int| 0 <= a < b < i + 1 implies #[trigger] lines@[a].name@ != #[trigger] lines@[b].name@ by {
                if b == i {
                    assert(name_table(index).contains_key(lines@[a].name@));
                }
            }
        }
        i = i + 1;
    }
    let mut graph: Vec<Node> = Vec::new();
    let mut i: usize = 0;
    while i < n
        invariant
            0 <= i <= n == lines@.len() <= isize::MAX,
            names@.len() == n,
            distinct_names(lines@),
            forall|m: int| 0 <= m < n ==> #[trigger] names@[m]@ == lines@[m].name@,
            forall|m: int| 0 <= m < n ==> name_table(index).contains_key(#[trigger] lines@[m].name@)
                && name_table(index)[lines@[m].name@] == m,
            forall|t: Seq<char>| #[trigger] name_table(index).contains_key(t) ==> exists|m: int| 0 <= m < n && lines@[m].name@ == t,
            graph@.len() == i,
            forall|m: int|
                0 <= m < i ==> (#[trigger] graph@[m]).wf(n as int) && !graph@[m].is_destroyed()
                    && graph@[m].present_ant == -1,
            forall|m: int, k: int|
                0 <= m < i && 0 <= k < 4 ==> #[trigger] graph@[m].neighbors@[k] == slot_after(
                    lines@,
                    lines@[m].connections@,
                    k,
                    lines@[m].connections@.len(),
                ),
        decreases n - i,
    {
        let conns = &lines[i].connections;
        let mut slots: [isize; 4] = [-1, -1, -1, -1];
        let mut c: usize = 0;
        while c < conns.len()
            invariant
                0 <= c <= conns@.len(),
                0 <= i < n == lines@.len() <= isize::MAX,
                distinct_names(lines@),
                conns@ == lines@[i as int].connections@,
                forall|m: int| 0 <= m < n ==> name_table(index).contains_key(#[trigger] lines@[m].name@)
                    && name_table(index)[lines@[m].name@] == m,
                forall|t: Seq<char>| #[trigger] name_table(index).contains_key(t) ==> exists|m: int| 0 <= m < n && lines@[m].name@ == t,
                forall|k: int| 0 <= k < 4 ==> -1 <= #[trigger] slots@[k] < n,
                forall|k: int| 0 <= k < 4 ==> #[trigger] slots@[k] == slot_after(lines@, conns@, k, c as nat),
            decreases conns.len() - c,
        {
            let d = direction_slot(&conns[c].0);
            let found = table_get(&index, &conns[c].1);
            let ghost before = slots@;
            let ghost t = conns@[c as int].1@;
            proof {
                if exists|j: int| declares(lines@, t, j) {
                    let j = choose|j: int| declares(lines@, t, j);
                    assert(name_table(index).contains_key(lines@[j].name@));
                } else {
                    if name_table(index).contains_key(t) {
                        let m = choose|m: int| 0 <= m < n && lines@[m].name@ == t;
                        assert(declares(lines@, t, m));
                    }
                }
            }
            match d {
                Some(k) => {
                    match found {
                        Some(j) => {
                            proof {
                                let jj = choose|jj: int| declares(lines@, t, jj);
                                assert(lines@[j as int].name@ == t);
                                if jj != j {
                                    if jj < j {
                                        assert(lines@[jj].name@ != lines@[j as int].name@);
                                    } else {
                                        assert(lines@[j as int].name@ != lines@[jj].name@);
                                    }
                                }
                            }
                            slots[k] = j as isize;
                        },
                        None => {},
                    }
                },
                None => {},
            }
            proof {
                assert forall|kk: int| 0 <= kk < 4 implies #[trigger] slots@[kk] == slot_after(lines@, conns@, kk, (c + 1) as nat) by {
                    assert(slot_after(lines@, conns@, kk, (c + 1) as nat) == (if dir_slot(conns@[c as int].0@) == Some(kk as usize)
                        && exists|j: int| declares(lines@, t, j) {
                        (choose|j: int| declares(lines@, t, j)) as isize
                    } else {
                        slot_after(lines@, conns@, kk, c as nat)
                    }));
                }
            }
            c = c + 1;
        }
        let valid = live_neighbors(&slots);
        let count = valid.len() as i8;
        graph.push(Node { neighbor_count: count, neighbors: slots, valid_neighbors: valid, present_ant: -1 });
        i = i + 1;
    }
    let map = HiveMap { index_to_name: names, name_to_index: index, graph };
    proof {
        assert(map.is_fresh());
        assert forall|t: Seq<char>| #[trigger] name_table(map.name_to_index).contains_key(t) implies exists|m: int| declares(lines@, t, m) by {
            let m = choose|m: int| 0 <= m < n && lines@[m].name@ == t;
            assert(declares(lines@, t, m));
        }
    }
    Ok(map)
}

/// The direction word of slot `k`.
pub open spec fn dir_word(k: int) -> Seq<char> {
    if k == 0 {
        "north"@
    } else if k == 1 {
        "west"@
    } else if k == 2 {
        "south"@
    } else {
        "east"@
    }
}

/// The connection that slot `k` holding `x` writes, if any.
pub open spec fn slot_conn(names: Seq<String>, x: isize, k: int) -> Seq<(Seq<char>, Seq<char>)> {
    if x >= 0 {
        seq![(dir_word(k), names[x as int]@)]
    } else {
        Seq::empty()
    }
}

/// The connections written for a node with these slots, in slot order.
pub open spec fn node_conns(names: Seq<String>, s: Seq<isize>) -> Seq<(Seq<char>, Seq<char>)> {
    slot_conn(names, s[0], 0) + slot_conn(names, s[1], 1) + slot_conn(names, s[2], 2) + slot_conn(
        names,
        s[3],
        3,
    )
}

/// What a list of connections says, as text.
pub open spec fn conn_view(c: Seq<(String, String)>) -> Seq<(Seq<char>, Seq<char>)> {
    c.map_values(|p: (String, String)| (p.0@, p.1@))
}

/// Indices of the live nodes among the first `n`, in order.
pub open spec fn live_indices(g: Seq<Node>, n: nat) -> Seq<int>
    decreases n,
{
    if n == 0 {
        Seq::empty()
    } else if g[n - 1].is_destroyed() {
        live_indices(g, (n - 1) as nat)
    } else {
        live_indices(g, (n - 1) as nat).push(n - 1)
    }
}

proof fn lemma_live_indices_bound(g: Seq<Node>, n: nat)
    ensures
        live_indices(g, n).len() <= n,
        forall|j: int| 0 <= j < live_indices(g, n).len() ==> 0 <= #[trigger] live_indices(g, n)[j] < n,
    decreases n,
{
    if n > 0 {
        lemma_live_indices_bound(g, (n - 1) as nat);
    }
}

fn direction_word(k: usize) -> (r: String)
    requires
        k < 4,
    ensures
        r@ == dir_word(k as int),
{
    if k == 0 {
        "north".to_owned()
    } else if k == 1 {
        "west".to_owned()
    } else if k == 2 {
        "south".to_owned()
    } else {
        "east".to_owned()
    }
}

/// The map as it now stands, in the format it was read in: one line per live
/// node, in index order, with one connection per non-empty slot, in slot order.
#[verifier::spinoff_prover]
#[verifier::rlimit(50)]
pub fn surviving_lines(map: &HiveMap) -> (r: Vec<HiveLine>)
    requires
        map.wf(),
        map.index_to_name@.len() == map.graph@.len(),
    ensures
        r@.len() == live_indices(map.graph@, map.graph@.len()).len(),
        forall|j: int|
            0 <= j < r@.len() ==> {
                let i = live_indices(map.graph@, map.graph@.len())[j];
                &&& (#[trigger] r@[j]).name@ == map.index_to_name@[i]@
                &&& conn_view(r@[j].connections@) == node_conns(map.index_to_name@, map.graph@[i].neighbors@)
            },
{
    let n = map.graph.len();
    let ghost g = map.graph@;
    let ghost names = map.index_to_name@;
    let mut out: Vec<HiveLine> = Vec::new();
    let mut i: usize = 0;
    while i < n
        invariant
            0 <= i <= n == g.len() == names.len(),
            g == map.graph@,
            names == map.index_to_name@,
            map.wf(),
            out@.len() == live_indices(g, i as nat).len(),
            forall|j: int|
                0 <= j < out@.len() ==> {
                    let v = live_indices(g, i as nat)[j];
                    &&& (#[trigger] out@[j]).name@ == names[v]@
                    &&& conn_view(out@[j].connections@) == node_conns(names, g[v].neighbors@)
                },
        decreases n - i,
    {
        proof {
            lemma_live_indices_bound(g, i as nat);
        }
        if map.graph[i].neighbor_count != -1 {
            assert(g[i as int].wf(n as int));
            let mut conns: Vec<(String, String)> = Vec::new();
            let mut k: usize = 0;
            while k < 4
                invariant
                    0 <= k <= 4,
                    0 <= i < n == g.len() == names.len(),
                    g == map.graph@,
                    names == map.index_to_name@,
                    forall|m: int| 0 <= m < 4 ==> -1 <= #[trigger] g[i as int].neighbors@[m] < n,
                    conn_view(conns@) == (if k >= 1 { slot_conn(names, g[i as int].neighbors@[0], 0) } else { Seq::empty() })
                        + (if k >= 2 { slot_conn(names, g[i as int].neighbors@[1], 1) } else { Seq::empty() })
                        + (if k >= 3 { slot_conn(names, g[i as int].neighbors@[2], 2) } else { Seq::empty() })
                        + (if k >= 4 { slot_conn(names, g[i as int].neighbors@[3], 3) } else { Seq::empty() }),
                decreases 4 - k,
            {
                let x = map.graph[i].neighbors[k];
                let ghost before = conns@;
                if x >= 0 {
                    let t = map.index_to_name[x as usize].clone();
                    conns.push((direction_word(k), t));
                    assert(conn_view(conns@) =~= conn_view(before).push((dir_word(k as int), names[x as int]@)));
                } else {
                    assert(conn_view(conns@) =~= conn_view(before));
                }
                proof {
                    let kk = (k + 1) as int;
                    assert(conn_view(conns@) =~= (if kk >= 1 { slot_conn(names, g[i as int].neighbors@[0], 0) } else { Seq::empty() })
                        + (if kk >= 2 { slot_conn(names, g[i as int].neighbors@[1], 1) } else { Seq::empty() })
                        + (if kk >= 3 { slot_conn(names, g[i as int].neighbors@[2], 2) } else { Seq::empty() })
                        + (if kk >= 4 { slot_conn(names, g[i as int].neighbors@[3], 3) } else { Seq::empty() }));
                }
                k = k + 1;
            }
            assert(conn_view(conns@) =~= node_conns(names, g[i as int].neighbors@));
            let ghost before = out@;
            out.push(HiveLine { name: map.index_to_name[i].clone(), connections: conns });
            proof {
                assert(live_indices(g, (i + 1) as nat) == live_indices(g, i as nat).push(i as int));
                assert forall|j: int| 0 <= j < out@.len() implies {
                    let v = live_indices(g, (i + 1) as nat)[j];
                    &&& (#[trigger] out@[j]).name@ == names[v]@
                    &&& conn_view(out@[j].connections@) == node_conns(names, g[v].neighbors@)
                } by {
                    if j < before.len() {
                        assert(out@[j] == before[j]);
                    }
                }
            }
        } else {
            assert(live_indices(g, (i + 1) as nat) == live_indices(g, i as nat));
        }
        i = i + 1;
    }
    out
}

} // verus!
