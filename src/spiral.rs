use vstd::prelude::*;
use vstd::string::StringExecFns;

verus! {

/// A point of the integer grid.
#[derive(Debug, Clone, Copy, PartialEq, Eq, Hash)]
pub struct Coord {
    pub x: i32,
    pub y: i32,
}

impl Coord {
    pub fn new(x: i32, y: i32) -> (r: Coord)
        ensures
            r.x == x && r.y == y,
    {
        Coord { x, y }
    }

    pub fn north(&self) -> (r: Coord)
        requires
            self.y < i32::MAX,
        ensures
            r.x == self.x && r.y == self.y + 1,
    {
        Coord::new(self.x, self.y + 1)
    }

    pub fn south(&self) -> (r: Coord)
        requires
            self.y > i32::MIN,
        ensures
            r.x == self.x && r.y == self.y - 1,
    {
        Coord::new(self.x, self.y - 1)
    }

    pub fn east(&self) -> (r: Coord)
        requires
            self.x < i32::MAX,
        ensures
            r.x == self.x + 1 && r.y == self.y,
    {
        Coord::new(self.x + 1, self.y)
    }

    pub fn west(&self) -> (r: Coord)
        requires
            self.x > i32::MIN,
        ensures
            r.x == self.x - 1 && r.y == self.y,
    {
        Coord::new(self.x - 1, self.y)
    }
}

/// The decimal digit `d` as a character.
pub open spec fn digit(d: int) -> char {
    if d == 0 { '0' } else if d == 1 { '1' } else if d == 2 { '2' } else if d == 3 { '3' }
    else if d == 4 { '4' } else if d == 5 { '5' } else if d == 6 { '6' } else if d == 7 { '7' }
    else if d == 8 { '8' } else { '9' }
}

/// The decimal digits of `v`, most significant first, without leading zeros.
pub open spec fn decimal(v: nat) -> Seq<char>
    decreases v,
{
    if v < 10 {
        seq![digit(v as int)]
    } else {
        decimal(v / 10).push(digit((v % 10) as int))
    }
}

/// A sign (`+` for zero and up) and the digits of `|v|`, zero-padded to at
/// least three.
pub open spec fn signed_padded(v: int) -> Seq<char> {
    let a = abs(v) as nat;
    seq![if v < 0 { '-' } else { '+' }] + (if a < 10 {
        seq!['0', '0']
    } else if a < 100 {
        seq!['0']
    } else {
        Seq::empty()
    }) + decimal(a)
}

/// The name of the node at `(x, y)`: `Hive_`, then `x`, `_` and `y`, each
/// signed and zero-padded.
pub open spec fn hive_name(x: int, y: int) -> Seq<char> {
    seq!['H', 'i', 'v', 'e', '_'] + signed_padded(x) + seq!['_'] + signed_padded(y)
}

fn digit_str(d: u64) -> (r: &'static str)
    requires
        d < 10,
    ensures
        r@ == seq![digit(d as int)],
{
    proof {
        reveal_strlit("0");
        reveal_strlit("1");
        reveal_strlit("2");
        reveal_strlit("3");
        reveal_strlit("4");
        reveal_strlit("5");
        reveal_strlit("6");
        reveal_strlit("7");
        reveal_strlit("8");
        reveal_strlit("9");
    }
    if d == 0 { "0" } else if d == 1 { "1" } else if d == 2 { "2" } else if d == 3 { "3" }
    else if d == 4 { "4" } else if d == 5 { "5" } else if d == 6 { "6" } else if d == 7 { "7" }
    else if d == 8 { "8" } else { "9" }
}

fn push_decimal(s: &mut String, v: u64)
    ensures
        final(s)@ == old(s)@ + decimal(v as nat),
    decreases v,
{
    if v >= 10 {
        push_decimal(s, v / 10);
    }
    s.append(digit_str(v % 10));
    proof {
        if v >= 10 {
            assert(final(s)@ =~= old(s)@ + decimal(v as nat));
        } else {
            assert(final(s)@ =~= old(s)@ + decimal(v as nat));
        }
    }
}

fn push_signed_padded(s: &mut String, v: i32)
    ensures
        final(s)@ == old(s)@ + signed_padded(v as int),
{
    proof {
        reveal_strlit("-");
        reveal_strlit("+");
        reveal_strlit("00");
        reveal_strlit("0");
    }
    let a: u64 = if v < 0 { (-(v as i64)) as u64 } else { v as u64 };
    if v < 0 {
        s.append("-");
    } else {
        s.append("+");
    }
    if a < 10 {
        s.append("00");
    } else if a < 100 {
        s.append("0");
    }
    push_decimal(s, a);
    assert(final(s)@ =~= old(s)@ + signed_padded(v as int));
}

/// The name of the node at `coord`.
pub fn generate_hive_name(coord: Coord) -> (r: String)
    ensures
        r@ == hive_name(coord.x as int, coord.y as int),
{
    proof {
        reveal_strlit("Hive_");
        reveal_strlit("_");
    }
    let mut s = String::from_str("Hive_");
    push_signed_padded(&mut s, coord.x);
    s.append("_");
    push_signed_padded(&mut s, coord.y);
    assert(s@ =~= hive_name(coord.x as int, coord.y as int));
    s
}

pub open spec fn abs(v: int) -> int {
    if v < 0 {
        -v
    } else {
        v
    }
}

/// The point after `(x, y)` on the spiral: rings of points at Manhattan
/// distance 1, 2, .. from the origin, each walked from `(r, 0)` through
/// `(0, r)`, `(-r, 0)` and `(0, -r)` back toward `(r, 0)`.
pub open spec fn spiral_next(x: int, y: int) -> (int, int) {
    if x > 0 && y >= 0 {
        (x - 1, y + 1)
    } else if x <= 0 && y > 0 {
        (x - 1, y - 1)
    } else if x < 0 && y <= 0 {
        (x + 1, y - 1)
    } else if x >= 0 && y == -1 {
        (x + 2, 0)
    } else if x >= 0 && y < 0 {
        (x + 1, y + 1)
    } else {
        (1, 0)
    }
}

/// The first `n` points of the spiral, from the origin.
pub open spec fn spiral(n: nat) -> Seq<(int, int)>
    decreases n,
{
    if n == 0 {
        Seq::empty()
    } else if n == 1 {
        seq![(0int, 0int)]
    } else {
        let s = spiral((n - 1) as nat);
        s.push(spiral_next(s.last().0, s.last().1))
    }
}

proof fn lemma_spiral_len(n: nat)
    ensures
        spiral(n).len() == n,
    decreases n,
{
    if n > 1 {
        lemma_spiral_len((n - 1) as nat);
    }
}

/// The first `num_nodes` points of the spiral around the origin.
pub fn generate_spiral_coords(num_nodes: usize) -> (r: Vec<Coord>)
    requires
        num_nodes < i32::MAX,
    ensures
        r@.len() == num_nodes,
        forall|k: int| 0 <= k < num_nodes ==> (#[trigger] r@[k].x as int, r@[k].y as int) == spiral(num_nodes as nat)[k],
{
    let mut coords: Vec<Coord> = Vec::new();
    if num_nodes == 0 {
        return coords;
    }
    let mut cur = Coord::new(0, 0);
    coords.push(cur);
    while coords.len() < num_nodes
        invariant
            1 <= coords@.len() <= num_nodes < i32::MAX,
            forall|k: int| 0 <= k < coords@.len() ==> (#[trigger] coords@[k].x as int, coords@[k].y as int) == spiral(coords@.len() as nat)[k],
            cur == coords@.last(),
            abs(cur.x as int) + abs(cur.y as int) <= coords@.len(),
        decreases num_nodes - coords@.len(),
    {
        let ghost s = spiral(coords@.len() as nat);
        proof {
            lemma_spiral_len(coords@.len() as nat);
        }
        let next = if cur.x > 0 && cur.y >= 0 {
            Coord::new(cur.x - 1, cur.y + 1)
        } else if cur.x <= 0 && cur.y > 0 {
            Coord::new(cur.x - 1, cur.y - 1)
        } else if cur.x < 0 && cur.y <= 0 {
            Coord::new(cur.x + 1, cur.y - 1)
        } else if cur.x >= 0 && cur.y == -1 {
            Coord::new(cur.x + 2, 0)
        } else if cur.x >= 0 && cur.y < 0 {
            Coord::new(cur.x + 1, cur.y + 1)
        } else {
            Coord::new(1, 0)
        };
        coords.push(next);
        cur = next;
        proof {
            let n1 = coords@.len() as nat;
            assert(spiral(n1) == s.push(spiral_next(s.last().0, s.last().1)));
            lemma_spiral_len(n1);
        }
    }
    coords
}

} // verus!
