//! Axial and cube hex coordinates, hex distance, and adjacency.

use vstd::prelude::*;

verus! {

use vstd::math::abs;
use vstd::math::max3;

/// Axial address of a hex tile: two signed coordinates `(q, r)`.
/// `(0, 0)` is the canonical origin; equality is structural.
#[derive(Clone, Copy, Debug, Hash, PartialEq, Eq, Structural)]
pub struct Axial {
    pub q: i64,
    pub r: i64,
}

/// Redundant three-axis form `(q, r, s)` of a hex address, kept only to make
/// rounding of fractional coordinates well defined; `q + r + s == 0` on every
/// value produced here.
#[derive(Clone, Copy, Debug, PartialEq, Eq, Structural)]
pub struct Cube {
    pub q: i64,
    pub r: i64,
    pub s: i64,
}

/// A hex paired with its step distance from a search origin.
#[derive(Clone, Copy, Debug, Hash, PartialEq, Eq, Structural)]
pub struct HexDistance {
    pub hex: Axial,
    pub distance: usize,
}

impl HexDistance {
    pub fn new(hex: Axial, distance: usize) -> (h: Self)
        ensures
            h.hex == hex,
            h.distance == distance,
    {
        Self { distance, hex }
    }
}

/// Coordinate magnitude accepted by `Axial::distance`, so that the summed
/// differences stay inside `i64` and the result fits a 32-bit `usize`.
pub const COORD_LIMIT: i64 = 250_000_000;

/// Hex distance: the minimum number of adjacent-tile steps between two hexes
/// on an unobstructed grid, computed from the axial differences.
pub open spec fn hex_dist(a: Axial, b: Axial) -> int {
    (abs(a.q - b.q) + abs(a.q + a.r - b.q - b.r) + abs(a.r - b.r)) as int / 2
}

/// `b` is one of the six hexes adjacent to `a`; the order of the cases is the
/// fixed direction order used by `get_neighbors`.
pub open spec fn is_neighbor(a: Axial, b: Axial) -> bool {
    ||| (b.q == a.q + 1 && b.r == a.r)
    ||| (b.q == a.q && b.r == a.r + 1)
    ||| (b.q == a.q - 1 && b.r == a.r + 1)
    ||| (b.q == a.q + 1 && b.r == a.r - 1)
    ||| (b.q == a.q - 1 && b.r == a.r)
    ||| (b.q == a.q && b.r == a.r - 1)
}

fn abs_i64(x: i64) -> (r: i64)
    requires
        x != i64::MIN,
    ensures
        r == abs(x as int),
{
    if x < 0 {
        -x
    } else {
        x
    }
}

impl Axial {
    pub fn new(q: i64, r: i64) -> (a: Self)
        ensures
            a.q == q,
            a.r == r,
    {
        Self { q, r }
    }

    /// Component-wise vector addition of two axial coordinates.
    pub fn add(self, other: Self) -> (a: Self)
        requires
            i64::MIN <= self.q + other.q <= i64::MAX,
            i64::MIN <= self.r + other.r <= i64::MAX,
        ensures
            a.q == self.q + other.q,
            a.r == self.r + other.r,
    {
        Self { q: self.q + other.q, r: self.r + other.r }
    }

    /// The number of adjacent-tile steps between `self` and `other` on an
    /// unobstructed grid.
    pub fn distance(&self, other: &Self) -> (d: usize)
        requires
            -COORD_LIMIT <= self.q <= COORD_LIMIT,
            -COORD_LIMIT <= self.r <= COORD_LIMIT,
            -COORD_LIMIT <= other.q <= COORD_LIMIT,
            -COORD_LIMIT <= other.r <= COORD_LIMIT,
        ensures
            d as int == hex_dist(*self, *other),
    {
        let dq: i64 = self.q - other.q;
        let dm: i64 = self.q + self.r - other.q - other.r;
        let dr: i64 = self.r - other.r;
        let total: i64 = abs_i64(dq) + abs_i64(dm) + abs_i64(dr);
        ((total as u64) / 2) as usize
    }
}

/// The fixed direction table: the six neighbor offsets, in the order every
/// adjacency enumeration follows.
pub open spec fn hex_directions() -> Seq<Axial> {
    seq![
        Axial { q: 1i64, r: 0i64 },
        Axial { q: 0i64, r: 1i64 },
        Axial { q: -1i64, r: 1i64 },
        Axial { q: 1i64, r: -1i64 },
        Axial { q: -1i64, r: 0i64 },
        Axial { q: 0i64, r: -1i64 },
    ]
}

/// The neighbors of `c` among the first `k` directions, skipping those in
/// `obstacles`, in direction order.
pub open spec fn neighbor_seq_upto(c: Axial, obstacles: Seq<Axial>, k: int) -> Seq<Axial>
    decreases k,
{
    if k <= 0 {
        Seq::empty()
    } else {
        let pre = neighbor_seq_upto(c, obstacles, k - 1);
        let d = hex_directions()[k - 1];
        let h = Axial { q: (c.q + d.q) as i64, r: (c.r + d.r) as i64 };
        if obstacles.contains(h) {
            pre
        } else {
            pre.push(h)
        }
    }
}

/// The passable neighbors of `c`, in direction order.
pub open spec fn neighbor_seq(c: Axial, obstacles: Seq<Axial>) -> Seq<Axial> {
    neighbor_seq_upto(c, obstacles, 6)
}

/// Room to step one hex in any direction without leaving `i64`.
pub open spec fn coord_room(c: Axial) -> bool {
    &&& i64::MIN < c.q < i64::MAX
    &&& i64::MIN < c.r < i64::MAX
}

/// The entries of the direction table, spelled out.
proof fn lemma_dir_entries()
    ensures
        hex_directions().len() == 6,
        hex_directions()[0] == (Axial { q: 1i64, r: 0i64 }),
        hex_directions()[1] == (Axial { q: 0i64, r: 1i64 }),
        hex_directions()[2] == (Axial { q: -1i64, r: 1i64 }),
        hex_directions()[3] == (Axial { q: 1i64, r: -1i64 }),
        hex_directions()[4] == (Axial { q: -1i64, r: 0i64 }),
        hex_directions()[5] == (Axial { q: 0i64, r: -1i64 }),
{
}

/// Every element of a neighbor prefix is an unobstructed neighbor, and each
/// prefix extends the one before it.
proof fn lemma_neighbor_seq_upto_sound(c: Axial, obstacles: Seq<Axial>, k: int)
    requires
        coord_room(c),
        0 <= k <= 6,
    ensures
        forall|j: int| 0 <= j < neighbor_seq_upto(c, obstacles, k).len()
            ==> is_neighbor(c, #[trigger] neighbor_seq_upto(c, obstacles, k)[j])
                && !obstacles.contains(neighbor_seq_upto(c, obstacles, k)[j]),
        k > 0 ==> forall|j: int| 0 <= j < neighbor_seq_upto(c, obstacles, k - 1).len()
            ==> #[trigger] neighbor_seq_upto(c, obstacles, k)[j]
                == neighbor_seq_upto(c, obstacles, k - 1)[j],
    decreases k,
{
    lemma_dir_entries();
    if k > 0 {
        lemma_neighbor_seq_upto_sound(c, obstacles, k - 1);
        let pre = neighbor_seq_upto(c, obstacles, k - 1);
        let d = hex_directions()[k - 1];
        let h = Axial { q: (c.q + d.q) as i64, r: (c.r + d.r) as i64 };
        if k == 1 {
            assert(h.q == c.q + 1 && h.r == c.r);
        } else if k == 2 {
            assert(h.q == c.q && h.r == c.r + 1);
        } else if k == 3 {
            assert(h.q == c.q - 1 && h.r == c.r + 1);
        } else if k == 4 {
            assert(h.q == c.q + 1 && h.r == c.r - 1);
        } else if k == 5 {
            assert(h.q == c.q - 1 && h.r == c.r);
        } else {
            assert(h.q == c.q && h.r == c.r - 1);
        }
        assert(is_neighbor(c, h));
    }
}

/// What `neighbor_seq` holds: exactly the adjacent hexes that are not
/// obstacles.
pub proof fn lemma_neighbor_seq_members(c: Axial, obstacles: Seq<Axial>, h: Axial)
    requires
        coord_room(c),
    ensures
        neighbor_seq(c, obstacles).contains(h) <==> (is_neighbor(c, h) && !obstacles.contains(h)),
{
    lemma_dir_entries();
    let s0 = neighbor_seq_upto(c, obstacles, 0);
    let s1 = neighbor_seq_upto(c, obstacles, 1);
    let s2 = neighbor_seq_upto(c, obstacles, 2);
    let s3 = neighbor_seq_upto(c, obstacles, 3);
    let s4 = neighbor_seq_upto(c, obstacles, 4);
    let s5 = neighbor_seq_upto(c, obstacles, 5);
    let s6 = neighbor_seq_upto(c, obstacles, 6);
    lemma_neighbor_seq_upto_sound(c, obstacles, 1);
    lemma_neighbor_seq_upto_sound(c, obstacles, 2);
    lemma_neighbor_seq_upto_sound(c, obstacles, 3);
    lemma_neighbor_seq_upto_sound(c, obstacles, 4);
    lemma_neighbor_seq_upto_sound(c, obstacles, 5);
    lemma_neighbor_seq_upto_sound(c, obstacles, 6);
    if s6.contains(h) {
        let i = choose|i: int| 0 <= i < s6.len() && s6[i] == h;
        assert(is_neighbor(c, s6[i]) && !obstacles.contains(s6[i]));
    }
    if is_neighbor(c, h) && !obstacles.contains(h) {
        let h1 = Axial { q: (c.q + 1) as i64, r: c.r };
        let h2 = Axial { q: c.q, r: (c.r + 1) as i64 };
        let h3 = Axial { q: (c.q - 1) as i64, r: (c.r + 1) as i64 };
        let h4 = Axial { q: (c.q + 1) as i64, r: (c.r - 1) as i64 };
        let h5 = Axial { q: (c.q - 1) as i64, r: c.r };
        let h6 = Axial { q: c.q, r: (c.r - 1) as i64 };
        assert(s1 == s0.push(h1) || (s1 == s0 && obstacles.contains(h1)));
        assert(s2 == s1.push(h2) || (s2 == s1 && obstacles.contains(h2)));
        assert(s3 == s2.push(h3) || (s3 == s2 && obstacles.contains(h3)));
        assert(s4 == s3.push(h4) || (s4 == s3 && obstacles.contains(h4)));
        assert(s5 == s4.push(h5) || (s5 == s4 && obstacles.contains(h5)));
        assert(s6 == s5.push(h6) || (s6 == s5 && obstacles.contains(h6)));
        if h.q == c.q + 1 && h.r == c.r {
            assert(h == h1);
            assert(s1 == s0.push(h));
            assert(s1[s0.len() as int] == h);
            assert(s1.contains(h));
        } else if h.q == c.q && h.r == c.r + 1 {
            assert(h == h2);
            assert(s2[s1.len() as int] == h);
            assert(s2.contains(h));
        } else if h.q == c.q - 1 && h.r == c.r + 1 {
            assert(h == h3);
            assert(s3[s2.len() as int] == h);
            assert(s3.contains(h));
        } else if h.q == c.q + 1 && h.r == c.r - 1 {
            assert(h == h4);
            assert(s4[s3.len() as int] == h);
            assert(s4.contains(h));
        } else if h.q == c.q - 1 && h.r == c.r {
            assert(h == h5);
            assert(s5[s4.len() as int] == h);
            assert(s5.contains(h));
        } else {
            assert(h == h6);
            assert(s6[s5.len() as int] == h);
            assert(s6.contains(h));
        }
        assert forall|k: int| 1 <= k < 6 && #[trigger] neighbor_seq_upto(c, obstacles, k).contains(h)
            implies neighbor_seq_upto(c, obstacles, k + 1).contains(h) by {
            let i = choose|i: int| 0 <= i < neighbor_seq_upto(c, obstacles, k).len()
                && neighbor_seq_upto(c, obstacles, k)[i] == h;
            lemma_neighbor_seq_upto_sound(c, obstacles, k + 1);
            assert(neighbor_seq_upto(c, obstacles, k + 1)[i] == h);
            assert(neighbor_seq_upto(c, obstacles, k + 1).contains(h));
        }
        assert(s6.contains(h));
    }
}

impl Axial {
    /// The up-to-six adjacent hexes not in `obstacles`, in direction order.
    pub fn get_neighbors(&self, obstacles: &Vec<Axial>) -> (r: Vec<Axial>)
        requires
            coord_room(*self),
        ensures
            r@ == neighbor_seq(*self, obstacles@),
            forall|h: Axial| r@.contains(h) <==> (is_neighbor(*self, h) && !obstacles@.contains(h)),
    {
        let mut r: Vec<Axial> = Vec::new();
        proof {
            lemma_dir_entries();
            assert(neighbor_seq_upto(*self, obstacles@, 0) == Seq::<Axial>::empty());
        }
        let c1 = Axial { q: self.q + 1, r: self.r };
        if !contains_axial(obstacles, c1) {
            r.push(c1);
        }
        assert(r@ == neighbor_seq_upto(*self, obstacles@, 1));
        let c2 = Axial { q: self.q, r: self.r + 1 };
        if !contains_axial(obstacles, c2) {
            r.push(c2);
        }
        assert(r@ == neighbor_seq_upto(*self, obstacles@, 2));
        let c3 = Axial { q: self.q - 1, r: self.r + 1 };
        if !contains_axial(obstacles, c3) {
            r.push(c3);
        }
        assert(r@ == neighbor_seq_upto(*self, obstacles@, 3));
        let c4 = Axial { q: self.q + 1, r: self.r - 1 };
        if !contains_axial(obstacles, c4) {
            r.push(c4);
        }
        assert(r@ == neighbor_seq_upto(*self, obstacles@, 4));
        let c5 = Axial { q: self.q - 1, r: self.r };
        if !contains_axial(obstacles, c5) {
            r.push(c5);
        }
        assert(r@ == neighbor_seq_upto(*self, obstacles@, 5));
        let c6 = Axial { q: self.q, r: self.r - 1 };
        if !contains_axial(obstacles, c6) {
            r.push(c6);
        }
        assert(r@ == neighbor_seq_upto(*self, obstacles@, 6));
        proof {
            assert forall|h: Axial| r@.contains(h)
                <==> (is_neighbor(*self, h) && !obstacles@.contains(h)) by {
                lemma_neighbor_seq_members(*self, obstacles@, h);
            }
        }
        r
    }
}

/// Linear scan for an axial value in a vector.
pub fn contains_axial(v: &Vec<Axial>, h: Axial) -> (b: bool)
    ensures
        b == v@.contains(h),
{
    let mut i: usize = 0;
    while i < v.len()
        invariant
            0 <= i <= v@.len(),
            forall|j: int| 0 <= j < i ==> v@[j] != h,
        decreases v@.len() - i,
    {
        if v[i] == h {
            return true;
        }
        i += 1;
    }
    false
}

/// The position of the first occurrence of `h` in `v`, if any: how a host
/// finds which unit, tile or obstacle sits on a clicked hex.
pub fn index_of(v: &Vec<Axial>, h: Axial) -> (found: Option<usize>)
    ensures
        match found {
            Some(i) => i < v@.len() && v@[i as int] == h
                && forall|j: int| 0 <= j < i ==> v@[j] != h,
            None => forall|j: int| 0 <= j < v@.len() ==> v@[j] != h,
        },
{
    let mut i: usize = 0;
    while i < v.len()
        invariant
            0 <= i <= v@.len(),
            forall|j: int| 0 <= j < i ==> v@[j] != h,
        decreases v@.len() - i,
    {
        if v[i] == h {
            return Some(i);
        }
        i += 1;
    }
    None
}

/// The three absolute axial differences always sum to twice their maximum,
/// which is why halving the sum in `hex_dist` is exact.
pub proof fn lemma_abs_sum_twice_max(x: int, y: int)
    ensures
        abs(x) + abs(y) + abs(x + y) == 2 * max3(abs(x) as int, abs(y) as int, abs(x + y) as int),
{
}

/// Hex distance is symmetric, and zero exactly between a hex and itself.
pub proof fn lemma_distance_symmetry(a: Axial, b: Axial)
    ensures
        hex_dist(a, b) == hex_dist(b, a),
        hex_dist(a, a) == 0,
        hex_dist(a, b) == 0 ==> a == b,
{
}

/// Adjacent hexes are at hex distance exactly one.
pub proof fn lemma_neighbor_dist(a: Axial, b: Axial)
    requires
        is_neighbor(a, b),
    ensures
        hex_dist(a, b) == 1,
{
}

/// Every hex other than `o` has a neighbor one step closer to `o`; the step
/// moves both coordinates toward `o`'s, so it stays representable.
pub proof fn lemma_step_toward(o: Axial, h: Axial)
    requires
        h != o,
    ensures
        exists|p: Axial| #[trigger] is_neighbor(p, h) && hex_dist(o, p) == hex_dist(o, h) - 1,
{
    let dq = h.q - o.q;
    let dr = h.r - o.r;
    if dq > 0 && dr < 0 {
        let p = Axial { q: (h.q - 1) as i64, r: (h.r + 1) as i64 };
        assert(is_neighbor(p, h) && hex_dist(o, p) == hex_dist(o, h) - 1);
    } else if dq < 0 && dr > 0 {
        let p = Axial { q: (h.q + 1) as i64, r: (h.r - 1) as i64 };
        assert(is_neighbor(p, h) && hex_dist(o, p) == hex_dist(o, h) - 1);
    } else if dq > 0 {
        let p = Axial { q: (h.q - 1) as i64, r: h.r };
        assert(is_neighbor(p, h) && hex_dist(o, p) == hex_dist(o, h) - 1);
    } else if dq < 0 {
        let p = Axial { q: (h.q + 1) as i64, r: h.r };
        assert(is_neighbor(p, h) && hex_dist(o, p) == hex_dist(o, h) - 1);
    } else if dr > 0 {
        let p = Axial { q: h.q, r: (h.r - 1) as i64 };
        assert(is_neighbor(p, h) && hex_dist(o, p) == hex_dist(o, h) - 1);
    } else {
        let p = Axial { q: h.q, r: (h.r + 1) as i64 };
        assert(is_neighbor(p, h) && hex_dist(o, p) == hex_dist(o, h) - 1);
    }
}

/// Triangle inequality for hex distance.
pub proof fn lemma_distance_triangle(a: Axial, b: Axial, c: Axial)
    ensures
        hex_dist(a, c) <= hex_dist(a, b) + hex_dist(b, c),
{
    let xab = a.q - b.q;
    let yab = a.r - b.r;
    let xbc = b.q - c.q;
    let ybc = b.r - c.r;
    let xac = a.q - c.q;
    let yac = a.r - c.r;
    lemma_abs_sum_twice_max(xab, yab);
    lemma_abs_sum_twice_max(xbc, ybc);
    lemma_abs_sum_twice_max(xac, yac);
    let mab = max3(abs(xab) as int, abs(yab) as int, abs(xab + yab) as int);
    let mbc = max3(abs(xbc) as int, abs(ybc) as int, abs(xbc + ybc) as int);
    let mac = max3(abs(xac) as int, abs(yac) as int, abs(xac + yac) as int);
    assert(hex_dist(a, b) == mab);
    assert(hex_dist(b, c) == mbc);
    assert(hex_dist(a, c) == mac);
    assert(abs(xac) <= abs(xab) + abs(xbc));
    assert(abs(yac) <= abs(yab) + abs(ybc));
    assert(abs(xac + yac) <= abs(xab + yab) + abs(xbc + ybc));
    assert(mac <= mab + mbc);
}

} // verus!
