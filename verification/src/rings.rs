//! Counting the unobstructed grid: the ring at distance `k` holds exactly
//! `6k` hexes, so a movement range computed with budget `n` and no obstacles
//! holds exactly `3n(n+1)`.

use vstd::prelude::*;

verus! {

use vstd::arithmetic::div_mod::lemma_fundamental_div_mod;
use vstd::arithmetic::div_mod::lemma_fundamental_div_mod_converse_div;
use vstd::arithmetic::div_mod::lemma_fundamental_div_mod_converse_mod;
use vstd::relations::injective_on;
use vstd::set_lib::lemma_int_range;
use vstd::set_lib::lemma_len_subset;
use vstd::set_lib::lemma_map_size;
use vstd::set_lib::lemma_set_disjoint_lens;
use vstd::set_lib::set_int_range;
use crate::hex::Axial;
use crate::hex::HexDistance;
use crate::hex::hex_dist;
use crate::hex::lemma_abs_sum_twice_max;
use crate::range::in_range_pair;
use crate::range::lemma_unobstructed_distance;
use crate::range::range_matches;
use crate::range::search_room;

/// Room for `k` hexes in every direction around `o`, so that every hex of
/// the ring at distance `k` is representable.
pub open spec fn ring_room(o: Axial, k: int) -> bool {
    &&& i64::MIN < o.q - k
    &&& o.q + k < i64::MAX
    &&& i64::MIN < o.r - k
    &&& o.r + k < i64::MAX
}

/// The `m`-th hex of the ring at distance `k` around `o`: six sides of `k`
/// hexes each, walked corner to corner.
pub open spec fn ring_hex(o: Axial, k: int, m: int) -> Axial
    recommends
        1 <= k,
        0 <= m < 6 * k,
{
    let s = m / k;
    let j = m % k;
    if s == 0 {
        Axial { q: (o.q + k) as i64, r: (o.r - j) as i64 }
    } else if s == 1 {
        Axial { q: (o.q + k - j) as i64, r: (o.r - k) as i64 }
    } else if s == 2 {
        Axial { q: (o.q - j) as i64, r: (o.r - k + j) as i64 }
    } else if s == 3 {
        Axial { q: (o.q - k) as i64, r: (o.r + j) as i64 }
    } else if s == 4 {
        Axial { q: (o.q - k + j) as i64, r: (o.r + k) as i64 }
    } else {
        Axial { q: (o.q + j) as i64, r: (o.r + k - j) as i64 }
    }
}

/// The ring position of a hex at distance `k` from `o`: which side its
/// coordinate differences fall on, and how far along that side it sits.
pub open spec fn ring_index(o: Axial, k: int, h: Axial) -> int
    recommends
        1 <= k,
{
    let dq = h.q - o.q;
    let dr = h.r - o.r;
    if dq == k && dr > -k {
        -dr
    } else if dr == -k && dq > 0 {
        k + (k - dq)
    } else if dq + dr == -k && -k < dq <= 0 {
        2 * k + (-dq)
    } else if dq == -k && 0 <= dr < k {
        3 * k + dr
    } else if dr == k && dq < 0 {
        4 * k + (k + dq)
    } else {
        5 * k + dq
    }
}

/// The hexes at distance exactly `k` from `o`.
pub open spec fn ring_set(o: Axial, k: int) -> Set<Axial> {
    Set::new(|h: Axial| hex_dist(o, h) == k)
}

/// The hexes a budget of `n` can reach on an empty board: everything within
/// distance `n` except the origin itself.
pub open spec fn ball_set(o: Axial, n: int) -> Set<Axial> {
    Set::new(|h: Axial| h != o && 1 <= hex_dist(o, h) <= n)
}

/// The positions of `r` whose entry is tagged with distance `k`.
pub open spec fn entries_at(r: Seq<HexDistance>, k: int) -> Set<int> {
    Set::new(|i: int| 0 <= i < r.len() && r[i].distance == k)
}

/// Splits a ring position into its side and its step along that side.
proof fn lemma_ring_split(k: int, m: int)
    requires
        1 <= k,
        0 <= m < 6 * k,
    ensures
        m == k * (m / k) + (m % k),
        0 <= m % k < k,
        0 <= m / k <= 5,
{
    lemma_fundamental_div_mod(m, k);
    vstd::arithmetic::div_mod::lemma_mod_bound(m, k);
    vstd::arithmetic::div_mod::lemma_div_is_ordered(0, m, k);
    vstd::arithmetic::div_mod::lemma_div_is_ordered(m, 6 * k - 1, k);
    lemma_fundamental_div_mod_converse_div(6 * k - 1, k, 5, k - 1);
    lemma_fundamental_div_mod_converse_div(0, k, 0, 0);
}

/// Every enumerated ring hex lies at distance exactly `k`, and the side
/// classification recovers its position.
proof fn lemma_ring_hex_works(o: Axial, k: int, m: int)
    requires
        ring_room(o, k),
        1 <= k,
        0 <= m < 6 * k,
    ensures
        hex_dist(o, ring_hex(o, k, m)) == k,
        ring_index(o, k, ring_hex(o, k, m)) == m,
{
    lemma_ring_split(k, m);
    let s = m / k;
    let j = m % k;
    let h = ring_hex(o, k, m);
    if s == 0 {
        assert(h.q == o.q + k && h.r == o.r - j);
        lemma_abs_sum_twice_max(h.q - o.q, h.r - o.r);
        assert(hex_dist(o, h) == k);
        assert(ring_index(o, k, h) == j);
        assert(m == k * 0 + j);
    } else if s == 1 {
        assert(h.q == o.q + k - j && h.r == o.r - k);
        lemma_abs_sum_twice_max(h.q - o.q, h.r - o.r);
        assert(hex_dist(o, h) == k);
        assert(ring_index(o, k, h) == k + j);
        assert(m == k * 1 + j);
    } else if s == 2 {
        assert(h.q == o.q - j && h.r == o.r - k + j);
        lemma_abs_sum_twice_max(h.q - o.q, h.r - o.r);
        assert(hex_dist(o, h) == k);
        assert(ring_index(o, k, h) == 2 * k + j);
        assert(m == k * 2 + j);
    } else if s == 3 {
        assert(h.q == o.q - k && h.r == o.r + j);
        lemma_abs_sum_twice_max(h.q - o.q, h.r - o.r);
        assert(hex_dist(o, h) == k);
        assert(ring_index(o, k, h) == 3 * k + j);
        assert(m == k * 3 + j);
    } else if s == 4 {
        assert(h.q == o.q - k + j && h.r == o.r + k);
        lemma_abs_sum_twice_max(h.q - o.q, h.r - o.r);
        assert(hex_dist(o, h) == k);
        assert(ring_index(o, k, h) == 4 * k + j);
        assert(m == k * 4 + j);
    } else {
        assert(h.q == o.q + j && h.r == o.r + k - j);
        lemma_abs_sum_twice_max(h.q - o.q, h.r - o.r);
        assert(hex_dist(o, h) == k);
        assert(ring_index(o, k, h) == 5 * k + j);
        assert(m == k * 5 + j);
    }
}

/// Every hex at distance `k` is an enumerated ring hex.
proof fn lemma_ring_complete(o: Axial, k: int, h: Axial)
    requires
        ring_room(o, k),
        1 <= k,
        hex_dist(o, h) == k,
    ensures
        0 <= ring_index(o, k, h) < 6 * k,
        ring_hex(o, k, ring_index(o, k, h)) == h,
{
    let dq = h.q - o.q;
    let dr = h.r - o.r;
    lemma_abs_sum_twice_max(dq, dr);
    let m = ring_index(o, k, h);
    if dq == k && dr > -k {
        lemma_fundamental_div_mod_converse_div(m, k, 0, -dr);
        lemma_fundamental_div_mod_converse_mod(m, k, 0, -dr);
    } else if dr == -k && dq > 0 {
        lemma_fundamental_div_mod_converse_div(m, k, 1, k - dq);
        lemma_fundamental_div_mod_converse_mod(m, k, 1, k - dq);
    } else if dq + dr == -k && -k < dq <= 0 {
        lemma_fundamental_div_mod_converse_div(m, k, 2, -dq);
        lemma_fundamental_div_mod_converse_mod(m, k, 2, -dq);
    } else if dq == -k && 0 <= dr < k {
        lemma_fundamental_div_mod_converse_div(m, k, 3, dr);
        lemma_fundamental_div_mod_converse_mod(m, k, 3, dr);
    } else if dr == k && dq < 0 {
        lemma_fundamental_div_mod_converse_div(m, k, 4, k + dq);
        lemma_fundamental_div_mod_converse_mod(m, k, 4, k + dq);
    } else {
        assert(dq + dr == k && 0 <= dq < k);
        lemma_fundamental_div_mod_converse_div(m, k, 5, dq);
        lemma_fundamental_div_mod_converse_mod(m, k, 5, dq);
    }
}

/// The ring at distance `k` holds exactly `6k` hexes.
pub proof fn lemma_ring_count(o: Axial, k: int)
    requires
        ring_room(o, k),
        1 <= k,
    ensures
        ring_set(o, k).finite(),
        ring_set(o, k).len() == 6 * k,
{
    let s = Seq::new((6 * k) as nat, |m: int| ring_hex(o, k, m));
    assert forall|m1: int, m2: int|
        0 <= m1 < s.len() && 0 <= m2 < s.len() && m1 != m2 implies s[m1] != s[m2] by {
        lemma_ring_hex_works(o, k, m1);
        lemma_ring_hex_works(o, k, m2);
    }
    assert(s.no_duplicates());
    s.unique_seq_to_set();
    assert(s.to_set() =~= ring_set(o, k)) by {
        assert forall|h: Axial| s.to_set().contains(h) implies ring_set(o, k).contains(h) by {
            let m = choose|m: int| 0 <= m < s.len() && s[m] == h;
            lemma_ring_hex_works(o, k, m);
        }
        assert forall|h: Axial| ring_set(o, k).contains(h) implies s.to_set().contains(h) by {
            lemma_ring_complete(o, k, h);
            let m = ring_index(o, k, h);
            assert(s[m] == h);
            assert(s.contains(h));
        }
    }
}

/// An empty board lets a budget of `n` reach exactly `3n(n+1)` hexes.
pub proof fn lemma_ball_count(o: Axial, n: int)
    requires
        ring_room(o, n),
        0 <= n,
    ensures
        ball_set(o, n).finite(),
        ball_set(o, n).len() == 3 * n * (n + 1),
    decreases n,
{
    if n == 0 {
        assert(ball_set(o, 0) =~= Set::<Axial>::empty());
    } else {
        lemma_ball_count(o, n - 1);
        lemma_ring_count(o, n);
        assert forall|h: Axial| ring_set(o, n).contains(h) implies h != o by {
            if h == o {
                lemma_abs_sum_twice_max(0, 0);
            }
        }
        assert(ball_set(o, n) =~= ball_set(o, n - 1) + ring_set(o, n));
        assert(ball_set(o, n - 1).disjoint(ring_set(o, n)));
        lemma_set_disjoint_lens(ball_set(o, n - 1), ring_set(o, n));
        assert(3 * (n - 1) * n + 6 * n == 3 * n * (n + 1)) by (nonlinear_arith);
    }
}

/// Ring counts of an unobstructed movement range: with budget `max` and no
/// obstacles it holds exactly `3·max·(max+1)` entries, `6k` of them at each
/// distance `k` from `1` through `max`.
pub proof fn lemma_unobstructed_range_count(
    r: Seq<HexDistance>,
    origin: Axial,
    obstacles: Seq<Axial>,
    max: usize,
)
    requires
        forall|x: Axial| !#[trigger] obstacles.contains(x),
        range_matches(r, origin, obstacles, max),
        search_room(origin, max),
    ensures
        r.len() == 3 * (max as int) * (max as int + 1),
        forall|k: int| 1 <= k <= max ==> #[trigger] entries_at(r, k).len() == 6 * k,
{
    let n = max as int;
    let hs = Seq::new(r.len(), |i: int| r[i].hex);
    assert forall|i: int| 0 <= i < r.len() implies hex_dist(origin, (#[trigger] r[i]).hex)
        == r[i].distance && r[i].hex != origin && 1 <= r[i].distance <= max by {
        assert(in_range_pair(origin, obstacles, max, r[i]));
        lemma_unobstructed_distance(origin, obstacles, r[i].hex, r[i].distance as nat);
    }
    assert(hs.no_duplicates());
    hs.unique_seq_to_set();
    assert(hs.to_set() =~= ball_set(origin, n)) by {
        assert forall|h: Axial| hs.to_set().contains(h) implies ball_set(origin, n).contains(h) by {
            let i = choose|i: int| 0 <= i < hs.len() && hs[i] == h;
            assert(r[i].hex == h);
        }
        assert forall|h: Axial| ball_set(origin, n).contains(h) implies hs.to_set().contains(h) by {
            let d = hex_dist(origin, h);
            lemma_unobstructed_distance(origin, obstacles, h, d as nat);
            assert(r.contains((HexDistance { hex: h, distance: d as usize })));
            let i = choose|i: int| 0 <= i < r.len()
                && r[i] == (HexDistance { hex: h, distance: d as usize });
            assert(hs[i] == h);
            assert(hs.contains(h));
        }
    }
    lemma_ball_count(origin, n);
    assert(r.len() == 3 * n * (n + 1));
    assert forall|k: int| 1 <= k <= max implies #[trigger] entries_at(r, k).len() == 6 * k by {
        let iset = entries_at(r, k);
        let f = |i: int| r[i].hex;
        assert(iset.subset_of(set_int_range(0, r.len() as int)));
        lemma_int_range(0, r.len() as int);
        lemma_len_subset(iset, set_int_range(0, r.len() as int));
        assert(injective_on(f, iset));
        assert(iset.map(f) =~= ring_set(origin, k)) by {
            assert forall|h: Axial| iset.map(f).contains(h)
                implies ring_set(origin, k).contains(h) by {
                let i = choose|i: int| iset.contains(i) && #[trigger] f(i) == h;
            }
            assert forall|h: Axial| ring_set(origin, k).contains(h)
                implies iset.map(f).contains(h) by {
                lemma_unobstructed_distance(origin, obstacles, h, k as nat);
                assert forall|x: Axial| ring_set(origin, k).contains(x) implies x != origin by {
                    if x == origin {
                        lemma_abs_sum_twice_max(0, 0);
                    }
                }
                assert(r.contains((HexDistance { hex: h, distance: k as usize })));
                let i = choose|i: int| 0 <= i < r.len()
                    && r[i] == (HexDistance { hex: h, distance: k as usize });
                assert(iset.contains(i) && f(i) == h);
            }
        }
        lemma_map_size(iset, ring_set(origin, k), f);
        lemma_ring_count(origin, k);
    }
}

} // verus!
