//! Distance-limited, obstacle-aware reachability: the movement-range search.
//!
//! A hex is in range when a chain of steps between adjacent hexes reaches it
//! from the origin within the budget, entering no obstacle. The search
//! produces each such hex with the minimal number of steps that reaches it.

use vstd::prelude::*;

verus! {

use vstd::math::abs;
use crate::hex::Axial;
use crate::hex::HexDistance;
use crate::hex::is_neighbor;
use crate::hex::hex_dist;
use crate::hex::lemma_distance_symmetry;
use crate::hex::lemma_distance_triangle;
use crate::hex::lemma_neighbor_dist;
use crate::hex::lemma_step_toward;

/// `h` can be reached from `origin` in at most `n` steps between adjacent
/// hexes, entering no hex of `obstacles`. The origin itself is always
/// reached, even when it is listed as an obstacle: only destination hexes are
/// filtered.
pub open spec fn reachable_within(origin: Axial, obstacles: Seq<Axial>, h: Axial, n: nat) -> bool
    decreases n,
{
    if h == origin {
        true
    } else if n == 0 {
        false
    } else {
        !obstacles.contains(h) && exists|p: Axial|
            is_neighbor(p, h) && reachable_within(origin, obstacles, p, (n - 1) as nat)
    }
}

/// `d` is the exact length of a shortest unobstructed path from `origin` to
/// `h`.
pub open spec fn has_dist(origin: Axial, obstacles: Seq<Axial>, h: Axial, d: nat) -> bool {
    &&& reachable_within(origin, obstacles, h, d)
    &&& (d > 0 ==> !reachable_within(origin, obstacles, h, (d - 1) as nat))
}

/// Some element of `s` carries the hex `h`.
pub open spec fn seq_has_hex(s: Seq<HexDistance>, h: Axial) -> bool {
    exists|i: int| 0 <= i < s.len() && (#[trigger] s[i]).hex == h
}

/// One unobstructed step extends reachability by one.
pub proof fn lemma_reachable_step(
    origin: Axial,
    obstacles: Seq<Axial>,
    p: Axial,
    h: Axial,
    n: nat,
)
    requires
        reachable_within(origin, obstacles, p, n),
        is_neighbor(p, h),
        !obstacles.contains(h),
    ensures
        reachable_within(origin, obstacles, h, (n + 1) as nat),
{
    if h != origin {
        assert(is_neighbor(p, h) && reachable_within(origin, obstacles, p, n));
        assert(exists|x: Axial|
            is_neighbor(x, h) && reachable_within(origin, obstacles, x, ((n + 1) - 1) as nat));
    }
}

/// Reachability within `n` steps implies reachability within `n + 1`.
pub proof fn lemma_reachable_succ(origin: Axial, obstacles: Seq<Axial>, h: Axial, n: nat)
    requires
        reachable_within(origin, obstacles, h, n),
    ensures
        reachable_within(origin, obstacles, h, (n + 1) as nat),
    decreases n,
{
    if h != origin {
        let p = choose|p: Axial|
            is_neighbor(p, h) && reachable_within(origin, obstacles, p, (n - 1) as nat);
        lemma_reachable_succ(origin, obstacles, p, (n - 1) as nat);
        lemma_reachable_step(origin, obstacles, p, h, n);
    }
}

/// Reachability is monotone in the step budget.
pub proof fn lemma_reachable_mono(origin: Axial, obstacles: Seq<Axial>, h: Axial, n: nat, m: nat)
    requires
        reachable_within(origin, obstacles, h, n),
        n <= m,
    ensures
        reachable_within(origin, obstacles, h, m),
    decreases m - n,
{
    if n < m {
        lemma_reachable_succ(origin, obstacles, h, n);
        lemma_reachable_mono(origin, obstacles, h, (n + 1) as nat, m);
    }
}

/// Every reachable hex has an exact shortest distance, at most the budget
/// that reaches it.
pub proof fn lemma_mindist_exists(origin: Axial, obstacles: Seq<Axial>, h: Axial, n: nat)
    requires
        reachable_within(origin, obstacles, h, n),
    ensures
        exists|d: nat| d <= n && #[trigger] has_dist(origin, obstacles, h, d),
    decreases n,
{
    if n == 0 {
        assert(has_dist(origin, obstacles, h, 0));
    } else if reachable_within(origin, obstacles, h, (n - 1) as nat) {
        lemma_mindist_exists(origin, obstacles, h, (n - 1) as nat);
        let d = choose|d: nat| d <= (n - 1) as nat && #[trigger] has_dist(origin, obstacles, h, d);
        assert(d <= n && has_dist(origin, obstacles, h, d));
    } else {
        assert(has_dist(origin, obstacles, h, n));
    }
}

/// A hex has at most one shortest distance.
pub proof fn lemma_has_dist_unique(
    origin: Axial,
    obstacles: Seq<Axial>,
    h: Axial,
    d1: nat,
    d2: nat,
)
    requires
        has_dist(origin, obstacles, h, d1),
        has_dist(origin, obstacles, h, d2),
    ensures
        d1 == d2,
{
    if d1 < d2 {
        lemma_reachable_mono(origin, obstacles, h, d1, (d2 - 1) as nat);
    } else if d2 < d1 {
        lemma_reachable_mono(origin, obstacles, h, d2, (d1 - 1) as nat);
    }
}

/// A hex at distance `d >= 1` is not the origin, is not an obstacle, and has
/// a neighbor at distance exactly `d - 1`.
pub proof fn lemma_has_dist_pred(origin: Axial, obstacles: Seq<Axial>, h: Axial, d: nat)
    requires
        has_dist(origin, obstacles, h, d),
        d >= 1,
    ensures
        h != origin,
        !obstacles.contains(h),
        exists|p: Axial|
            #[trigger] is_neighbor(p, h) && has_dist(origin, obstacles, p, (d - 1) as nat),
{
    assert(reachable_within(origin, obstacles, origin, (d - 1) as nat));
    let p = choose|p: Axial|
        is_neighbor(p, h) && reachable_within(origin, obstacles, p, (d - 1) as nat);
    lemma_mindist_exists(origin, obstacles, p, (d - 1) as nat);
    let dp = choose|dp: nat| dp <= (d - 1) as nat && #[trigger] has_dist(origin, obstacles, p, dp);
    if dp < (d - 1) as nat {
        lemma_reachable_step(origin, obstacles, p, h, dp);
        lemma_reachable_mono(origin, obstacles, h, (dp + 1) as nat, (d - 1) as nat);
        assert(false);
    }
    assert(is_neighbor(p, h) && has_dist(origin, obstacles, p, (d - 1) as nat));
}

/// A hex reached in `n` steps lies within `n` of the origin on both axes.
pub proof fn lemma_reachable_coord_bound(origin: Axial, obstacles: Seq<Axial>, h: Axial, n: nat)
    requires
        reachable_within(origin, obstacles, h, n),
    ensures
        abs(h.q - origin.q) <= n,
        abs(h.r - origin.r) <= n,
    decreases n,
{
    if h != origin {
        let p = choose|p: Axial|
            is_neighbor(p, h) && reachable_within(origin, obstacles, p, (n - 1) as nat);
        lemma_reachable_coord_bound(origin, obstacles, p, (n - 1) as nat);
    }
}

/// Reachability reads the obstacle sequence only through membership, so any
/// reordering or duplication of the obstacle list leaves it unchanged.
pub proof fn lemma_reachable_same_obstacles(
    origin: Axial,
    obs1: Seq<Axial>,
    obs2: Seq<Axial>,
    h: Axial,
    n: nat,
)
    requires
        forall|x: Axial| #[trigger] obs1.contains(x) == obs2.contains(x),
        reachable_within(origin, obs1, h, n),
    ensures
        reachable_within(origin, obs2, h, n),
    decreases n,
{
    if h != origin {
        let p = choose|p: Axial|
            is_neighbor(p, h) && reachable_within(origin, obs1, p, (n - 1) as nat);
        lemma_reachable_same_obstacles(origin, obs1, obs2, p, (n - 1) as nat);
        assert(obs1.contains(h) == obs2.contains(h));
        assert(is_neighbor(p, h) && reachable_within(origin, obs2, p, (n - 1) as nat));
    }
}

/// The same, for exact distances.
pub proof fn lemma_has_dist_same_obstacles(
    origin: Axial,
    obs1: Seq<Axial>,
    obs2: Seq<Axial>,
    h: Axial,
    d: nat,
)
    requires
        forall|x: Axial| #[trigger] obs1.contains(x) == obs2.contains(x),
        has_dist(origin, obs1, h, d),
    ensures
        has_dist(origin, obs2, h, d),
{
    lemma_reachable_same_obstacles(origin, obs1, obs2, h, d);
    if d > 0 && reachable_within(origin, obs2, h, (d - 1) as nat) {
        lemma_reachable_same_obstacles(origin, obs2, obs1, h, (d - 1) as nat);
    }
}

/// Once a layer holds no hex, no later layer holds one.
pub proof fn lemma_no_more_layers(origin: Axial, obstacles: Seq<Axial>, d0: nat, d: nat)
    requires
        forall|h: Axial| !#[trigger] has_dist(origin, obstacles, h, d0),
        d0 <= d,
    ensures
        forall|h: Axial| !#[trigger] has_dist(origin, obstacles, h, d),
    decreases d - d0,
{
    if d0 < d {
        assert forall|h: Axial| !#[trigger] has_dist(origin, obstacles, h, (d0 + 1) as nat) by {
            if has_dist(origin, obstacles, h, (d0 + 1) as nat) {
                lemma_has_dist_pred(origin, obstacles, h, (d0 + 1) as nat);
                let p = choose|p: Axial|
                    #[trigger] is_neighbor(p, h) && has_dist(origin, obstacles, p, d0);
                assert(false);
            }
        }
        lemma_no_more_layers(origin, obstacles, (d0 + 1) as nat, d);
    }
}

/// One entry of a movement range: a hex other than the origin, within the
/// budget, at its exact shortest distance.
pub open spec fn in_range_pair(
    origin: Axial,
    obstacles: Seq<Axial>,
    max: usize,
    hd: HexDistance,
) -> bool {
    &&& hd.hex != origin
    &&& 1 <= hd.distance <= max
    &&& has_dist(origin, obstacles, hd.hex, hd.distance as nat)
}

/// `r` is the movement range from `origin` under `obstacles` and budget
/// `max`: it holds exactly the reachable hexes other than the origin, each
/// once, paired with its shortest distance.
pub open spec fn range_matches(
    r: Seq<HexDistance>,
    origin: Axial,
    obstacles: Seq<Axial>,
    max: usize,
) -> bool {
    &&& forall|i: int| 0 <= i < r.len() ==> in_range_pair(origin, obstacles, max, #[trigger] r[i])
    &&& forall|h: Axial, d: nat|
        h != origin && 1 <= d <= max && #[trigger] has_dist(origin, obstacles, h, d)
            ==> r.contains((HexDistance { hex: h, distance: d as usize }))
    &&& forall|i: int, j: int| 0 <= i < j < r.len() ==> r[i].hex != r[j].hex
}

/// Determinism of the movement range: any two results matching the same
/// origin and budget, over obstacle lists with the same membership, hold
/// exactly the same `(hex, distance)` pairs.
pub proof fn lemma_range_deterministic(
    origin: Axial,
    obs1: Seq<Axial>,
    obs2: Seq<Axial>,
    max: usize,
    r1: Seq<HexDistance>,
    r2: Seq<HexDistance>,
)
    requires
        forall|x: Axial| #[trigger] obs1.contains(x) == obs2.contains(x),
        range_matches(r1, origin, obs1, max),
        range_matches(r2, origin, obs2, max),
    ensures
        forall|hd: HexDistance| #[trigger] r1.contains(hd) <==> r2.contains(hd),
{
    assert forall|hd: HexDistance| #[trigger] r1.contains(hd) implies r2.contains(hd) by {
        let i = choose|i: int| 0 <= i < r1.len() && r1[i] == hd;
        assert(in_range_pair(origin, obs1, max, hd));
        lemma_has_dist_same_obstacles(origin, obs1, obs2, hd.hex, hd.distance as nat);
        assert(r2.contains((HexDistance { hex: hd.hex, distance: hd.distance })));
        assert(hd == (HexDistance { hex: hd.hex, distance: hd.distance }));
    }
    assert forall|hd: HexDistance| #[trigger] r2.contains(hd) implies r1.contains(hd) by {
        let i = choose|i: int| 0 <= i < r2.len() && r2[i] == hd;
        assert(in_range_pair(origin, obs2, max, hd));
        assert forall|x: Axial| #[trigger] obs2.contains(x) == obs1.contains(x) by {
            assert(obs1.contains(x) == obs2.contains(x));
        }
        lemma_has_dist_same_obstacles(origin, obs2, obs1, hd.hex, hd.distance as nat);
        assert(r1.contains((HexDistance { hex: hd.hex, distance: hd.distance })));
        assert(hd == (HexDistance { hex: hd.hex, distance: hd.distance }));
    }
}

/// With no obstacles, a hex at formula distance `n` is reached in `n` steps.
proof fn lemma_hex_dist_reachable(origin: Axial, obstacles: Seq<Axial>, h: Axial)
    requires
        forall|x: Axial| !#[trigger] obstacles.contains(x),
    ensures
        hex_dist(origin, h) >= 0,
        reachable_within(origin, obstacles, h, hex_dist(origin, h) as nat),
    decreases hex_dist(origin, h),
{
    lemma_distance_symmetry(origin, h);
    if h != origin {
        lemma_step_toward(origin, h);
        let p = choose|p: Axial|
            #[trigger] is_neighbor(p, h) && hex_dist(origin, p) == hex_dist(origin, h) - 1;
        lemma_hex_dist_reachable(origin, obstacles, p);
        lemma_reachable_step(origin, obstacles, p, h, hex_dist(origin, p) as nat);
    }
}

/// No path, even unobstructed, beats the formula distance.
proof fn lemma_reachable_hex_dist_bound(origin: Axial, obstacles: Seq<Axial>, h: Axial, n: nat)
    requires
        reachable_within(origin, obstacles, h, n),
    ensures
        hex_dist(origin, h) <= n,
    decreases n,
{
    lemma_distance_symmetry(origin, h);
    if h != origin {
        let p = choose|p: Axial|
            is_neighbor(p, h) && reachable_within(origin, obstacles, p, (n - 1) as nat);
        lemma_reachable_hex_dist_bound(origin, obstacles, p, (n - 1) as nat);
        lemma_neighbor_dist(p, h);
        lemma_distance_triangle(origin, p, h);
        lemma_distance_symmetry(p, h);
    }
}

/// With no obstacles, the shortest-path distance of every hex is exactly the
/// closed-form hex distance: the search's layer `k` is the ring at formula
/// distance `k`.
pub proof fn lemma_unobstructed_distance(
    origin: Axial,
    obstacles: Seq<Axial>,
    h: Axial,
    d: nat,
)
    requires
        forall|x: Axial| !#[trigger] obstacles.contains(x),
    ensures
        has_dist(origin, obstacles, h, d) <==> hex_dist(origin, h) == d,
{
    if has_dist(origin, obstacles, h, d) {
        lemma_reachable_hex_dist_bound(origin, obstacles, h, d);
        if hex_dist(origin, h) < d {
            lemma_hex_dist_reachable(origin, obstacles, h);
            lemma_reachable_mono(
                origin,
                obstacles,
                h,
                hex_dist(origin, h) as nat,
                (d - 1) as nat,
            );
            assert(false);
        }
    }
    if hex_dist(origin, h) == d {
        lemma_hex_dist_reachable(origin, obstacles, h);
        if d > 0 && reachable_within(origin, obstacles, h, (d - 1) as nat) {
            lemma_reachable_hex_dist_bound(origin, obstacles, h, (d - 1) as nat);
            assert(false);
        }
    }
}

/// What an unobstructed movement range holds: each entry sits at its formula
/// distance, and every hex within the budget other than the origin appears.
pub proof fn lemma_unobstructed_range(
    r: Seq<HexDistance>,
    origin: Axial,
    obstacles: Seq<Axial>,
    max: usize,
)
    requires
        forall|x: Axial| !#[trigger] obstacles.contains(x),
        range_matches(r, origin, obstacles, max),
    ensures
        forall|i: int| 0 <= i < r.len()
            ==> hex_dist(origin, (#[trigger] r[i]).hex) == r[i].distance,
        forall|h: Axial| h != origin && 1 <= #[trigger] hex_dist(origin, h) <= max
            ==> exists|i: int| 0 <= i < r.len() && (#[trigger] r[i]).hex == h,
{
    assert forall|i: int| 0 <= i < r.len()
        implies hex_dist(origin, (#[trigger] r[i]).hex) == r[i].distance by {
        assert(in_range_pair(origin, obstacles, max, r[i]));
        lemma_unobstructed_distance(origin, obstacles, r[i].hex, r[i].distance as nat);
    }
    assert forall|h: Axial| h != origin && 1 <= #[trigger] hex_dist(origin, h) <= max
        implies exists|i: int| 0 <= i < r.len() && (#[trigger] r[i]).hex == h by {
        let d = hex_dist(origin, h) as nat;
        lemma_unobstructed_distance(origin, obstacles, h, d);
        assert(has_dist(origin, obstacles, h, d));
        assert(r.contains((HexDistance { hex: h, distance: d as usize })));
        let i = choose|i: int| 0 <= i < r.len()
            && r[i] == (HexDistance { hex: h, distance: d as usize });
        assert((#[trigger] r[i]).hex == h);
    }
}

/// Linear scan for an entry carrying hex `h`.
fn contains_hex(v: &Vec<HexDistance>, h: Axial) -> (b: bool)
    ensures
        b == seq_has_hex(v@, h),
{
    let mut i: usize = 0;
    while i < v.len()
        invariant
            0 <= i <= v@.len(),
            forall|j: int| 0 <= j < i ==> (#[trigger] v@[j]).hex != h,
        decreases v@.len() - i,
    {
        if v[i].hex == h {
            return true;
        }
        i += 1;
    }
    false
}

/// The search stays at least `max` hexes clear of the `i64` boundary, so
/// every visited hex has room for one more neighbor step.
pub open spec fn search_room(origin: Axial, max: usize) -> bool {
    &&& i64::MIN < origin.q - max
    &&& origin.q + max < i64::MAX
    &&& i64::MIN < origin.r - max
    &&& origin.r + max < i64::MAX
}

impl Axial {
    /// The movement range from `self`: every hex reachable within
    /// `max_distance` unobstructed steps, paired with the length of a
    /// shortest such path, the origin excluded. A budget of zero yields the
    /// empty range, and the search is a layer-by-layer flood fill, so each
    /// hex is tagged the first time it is discovered.
    pub fn new_bfs(&self, obstacles: &Vec<Axial>, max_distance: usize) -> (r: Vec<HexDistance>)
        requires
            search_room(*self, max_distance),
        ensures
            range_matches(r@, *self, obstacles@, max_distance),
            max_distance == 0 ==> r@.len() == 0,
    {
        let origin = *self;
        let ghost o = *self;
        let ghost obs = obstacles@;
        if max_distance == 0 {
            let r: Vec<HexDistance> = Vec::new();
            return r;
        }
        let mut visited: Vec<HexDistance> = Vec::new();
        visited.push(HexDistance { hex: origin, distance: 0 });
        let mut queue: Vec<HexDistance> = Vec::new();
        queue.push(HexDistance { hex: origin, distance: 0 });
        let mut layer: usize = 0;
        let ghost mut lay: nat = 0;
        proof {
            assert(reachable_within(o, obs, o, 0));
            assert(has_dist(o, obs, o, 0));
            assert(queue@[0].hex == o);
            assert(visited@[0].hex == o);
            assert forall|h: Axial| #[trigger] has_dist(o, obs, h, 0)
                implies seq_has_hex(queue@, h) by {
                assert(reachable_within(o, obs, h, 0));
                assert(h == o);
                assert(seq_has_hex(queue@, h));
            }
            assert forall|h: Axial, d: nat| d <= 0 && #[trigger] has_dist(o, obs, h, d)
                implies seq_has_hex(visited@, h) by {
                assert(reachable_within(o, obs, h, 0));
                assert(h == o);
                assert(seq_has_hex(visited@, h));
            }
        }
        while queue.len() > 0 && layer < max_distance
            invariant
                lay == layer,
                layer <= max_distance,
                search_room(o, max_distance),
                obs == obstacles@,
                forall|i: int| 0 <= i < queue@.len() ==> (#[trigger] queue@[i]).distance == layer
                    && has_dist(o, obs, queue@[i].hex, lay),
                forall|h: Axial| #[trigger] has_dist(o, obs, h, lay) ==> seq_has_hex(queue@, h),
                forall|i: int| 0 <= i < visited@.len() ==> (#[trigger] visited@[i]).distance <= layer
                    && has_dist(o, obs, visited@[i].hex, visited@[i].distance as nat),
                forall|h: Axial, d: nat| d <= lay && #[trigger] has_dist(o, obs, h, d)
                    ==> seq_has_hex(visited@, h),
                forall|i: int, j: int| 0 <= i < j < visited@.len()
                    ==> visited@[i].hex != visited@[j].hex,
            decreases max_distance - layer,
        {
            let next_d: usize = layer + 1;
            let ghost nd: nat = lay + 1;
            let mut next_queue: Vec<HexDistance> = Vec::new();
            let ghost visited_snap = visited@;
            let mut i: usize = 0;
            while i < queue.len()
                invariant
                    0 <= i <= queue@.len(),
                    lay == layer,
                    nd == lay + 1,
                    next_d == next_d as nat,
                    nd == next_d,
                    layer < max_distance,
                    search_room(o, max_distance),
                    obs == obstacles@,
                    forall|j: int| 0 <= j < queue@.len() ==> (#[trigger] queue@[j]).distance == layer
                        && has_dist(o, obs, queue@[j].hex, lay),
                    forall|h: Axial| #[trigger] has_dist(o, obs, h, lay) ==> seq_has_hex(queue@, h),
                    visited@ == visited_snap + next_queue@,
                    forall|j: int| 0 <= j < visited_snap.len()
                        ==> (#[trigger] visited_snap[j]).distance <= layer
                            && has_dist(o, obs, visited_snap[j].hex, visited_snap[j].distance as nat),
                    forall|h: Axial, d: nat| d <= lay && #[trigger] has_dist(o, obs, h, d)
                        ==> seq_has_hex(visited_snap, h),
                    forall|k: int| 0 <= k < next_queue@.len()
                        ==> (#[trigger] next_queue@[k]).distance == next_d
                            && has_dist(o, obs, next_queue@[k].hex, nd),
                    forall|i2: int, j2: int| 0 <= i2 < j2 < visited@.len()
                        ==> visited@[i2].hex != visited@[j2].hex,
                    forall|h: Axial| #[trigger] has_dist(o, obs, h, nd)
                        && (exists|j: int| 0 <= j < i && is_neighbor((#[trigger] queue@[j]).hex, h))
                        ==> seq_has_hex(next_queue@, h),
                decreases queue@.len() - i,
            {
                let tile: HexDistance = queue[i];
                let ghost th = tile.hex;
                proof {
                    assert(has_dist(o, obs, th, lay));
                    lemma_reachable_coord_bound(o, obs, th, lay);
                    assert(crate::hex::coord_room(th));
                }
                let neighbors = tile.hex.get_neighbors(obstacles);
                let mut k: usize = 0;
                while k < neighbors.len()
                    invariant
                        0 <= k <= neighbors@.len(),
                        lay == layer,
                        nd == lay + 1,
                        nd == next_d,
                        layer < max_distance,
                        search_room(o, max_distance),
                        obs == obstacles@,
                        0 <= i < queue@.len(),
                        th == queue@[i as int].hex,
                        forall|j: int| 0 <= j < queue@.len()
                            ==> (#[trigger] queue@[j]).distance == layer
                                && has_dist(o, obs, queue@[j].hex, lay),
                        forall|h: Axial| #[trigger] has_dist(o, obs, h, lay)
                            ==> seq_has_hex(queue@, h),
                        visited@ == visited_snap + next_queue@,
                        forall|j: int| 0 <= j < visited_snap.len()
                            ==> (#[trigger] visited_snap[j]).distance <= layer
                                && has_dist(o, obs, visited_snap[j].hex, visited_snap[j].distance as nat),
                        forall|h: Axial, d: nat| d <= lay && #[trigger] has_dist(o, obs, h, d)
                            ==> seq_has_hex(visited_snap, h),
                        forall|kk: int| 0 <= kk < next_queue@.len()
                            ==> (#[trigger] next_queue@[kk]).distance == next_d
                                && has_dist(o, obs, next_queue@[kk].hex, nd),
                        forall|i2: int, j2: int| 0 <= i2 < j2 < visited@.len()
                            ==> visited@[i2].hex != visited@[j2].hex,
                        forall|h: Axial| #[trigger] has_dist(o, obs, h, nd)
                            && (exists|j: int| 0 <= j < i && is_neighbor((#[trigger] queue@[j]).hex, h))
                            ==> seq_has_hex(next_queue@, h),
                        forall|h: Axial| #[trigger] neighbors@.contains(h)
                            <==> (is_neighbor(th, h) && !obs.contains(h)),
                        forall|h: Axial| #[trigger] has_dist(o, obs, h, nd)
                            && neighbors@.take(k as int).contains(h)
                            ==> seq_has_hex(next_queue@, h),
                    decreases neighbors@.len() - k,
                {
                    let nb: Axial = neighbors[k];
                    proof {
                        assert(neighbors@.contains(nb));
                        assert(is_neighbor(th, nb) && !obs.contains(nb));
                    }
                    let was_visited: bool = contains_hex(&visited, nb);
                    if !was_visited {
                        proof {
                            if reachable_within(o, obs, nb, lay) {
                                lemma_mindist_exists(o, obs, nb, lay);
                                let d0 = choose|d0: nat| d0 <= lay
                                    && #[trigger] has_dist(o, obs, nb, d0);
                                assert(seq_has_hex(visited_snap, nb));
                                let j0 = choose|j0: int| 0 <= j0 < visited_snap.len()
                                    && (#[trigger] visited_snap[j0]).hex == nb;
                                assert(visited@[j0] == visited_snap[j0]);
                                assert(seq_has_hex(visited@, nb));
                                assert(false);
                            }
                            assert(reachable_within(o, obs, queue@[i as int].hex, lay));
                            lemma_reachable_step(o, obs, th, nb, lay);
                            assert(has_dist(o, obs, nb, nd));
                        }
                        let ghost visited_before = visited@;
                        let ghost nq_before = next_queue@;
                        visited.push(HexDistance { hex: nb, distance: next_d });
                        next_queue.push(HexDistance { hex: nb, distance: next_d });
                        proof {
                            assert(visited@ =~= visited_snap + next_queue@);
                            assert forall|i2: int, j2: int| 0 <= i2 < j2 < visited@.len()
                                implies visited@[i2].hex != visited@[j2].hex by {
                                if j2 == visited@.len() - 1 {
                                    assert(visited@[i2] == visited_before[i2]);
                                    assert(!seq_has_hex(visited_before, nb));
                                }
                            }
                            assert(next_queue@[next_queue@.len() - 1].hex == nb);
                            assert(seq_has_hex(next_queue@, nb));
                            assert forall|h2: Axial| seq_has_hex(nq_before, h2)
                                implies seq_has_hex(next_queue@, h2) by {
                                let idx = choose|idx: int| 0 <= idx < nq_before.len()
                                    && (#[trigger] nq_before[idx]).hex == h2;
                                assert((#[trigger] next_queue@[idx]).hex == h2);
                            }
                            assert forall|h2: Axial| #[trigger] has_dist(o, obs, h2, nd)
                                && (exists|j: int| 0 <= j < i
                                    && is_neighbor((#[trigger] queue@[j]).hex, h2))
                                implies seq_has_hex(next_queue@, h2) by {
                                assert(seq_has_hex(nq_before, h2));
                            }
                            assert forall|h2: Axial| #[trigger] has_dist(o, obs, h2, nd)
                                && neighbors@.take(k as int).contains(h2)
                                implies seq_has_hex(next_queue@, h2) by {
                                assert(seq_has_hex(nq_before, h2));
                            }
                        }
                    }
                    proof {
                        // whether or not it was pushed, a next-layer hex equal
                        // to this neighbor now sits in the next frontier
                        if has_dist(o, obs, nb, nd) {
                            if was_visited {
                                let j0 = choose|j0: int| 0 <= j0 < visited@.len()
                                    && (#[trigger] visited@[j0]).hex == nb;
                                assert(j0 < visited_snap.len() + next_queue@.len());
                                if j0 < visited_snap.len() {
                                    assert(visited_snap[j0].hex == nb);
                                    lemma_has_dist_unique(
                                        o,
                                        obs,
                                        nb,
                                        visited_snap[j0].distance as nat,
                                        nd,
                                    );
                                    assert(false);
                                } else {
                                    assert(next_queue@[j0 - visited_snap.len()].hex == nb);
                                    assert(seq_has_hex(next_queue@, nb));
                                }
                            } else {
                                assert(seq_has_hex(next_queue@, nb));
                            }
                        }
                        let ghost kk = k as int;
                        assert(neighbors@.take(kk + 1) =~= neighbors@.take(kk).push(neighbors@[kk]));
                        assert forall|h: Axial| #[trigger] has_dist(o, obs, h, nd)
                            && neighbors@.take(kk + 1).contains(h)
                            implies seq_has_hex(next_queue@, h) by {
                            let idx = choose|idx: int| 0 <= idx < neighbors@.take(kk + 1).len()
                                && #[trigger] neighbors@.take(kk + 1)[idx] == h;
                            if idx < kk {
                                assert(neighbors@.take(kk)[idx] == h);
                                assert(neighbors@.take(kk).contains(h));
                            } else {
                                assert(h == nb);
                            }
                        }
                    }
                    k += 1;
                }
                proof {
                    assert(neighbors@.take(neighbors@.len() as int) =~= neighbors@);
                    assert forall|h: Axial| #[trigger] has_dist(o, obs, h, nd)
                        && (exists|j: int| 0 <= j < i + 1 && is_neighbor((#[trigger] queue@[j]).hex, h))
                        implies seq_has_hex(next_queue@, h) by {
                        let j = choose|j: int| 0 <= j < i + 1
                            && is_neighbor((#[trigger] queue@[j]).hex, h);
                        if j < i {
                            assert(exists|j2: int| 0 <= j2 < i
                                && is_neighbor((#[trigger] queue@[j2]).hex, h));
                        } else {
                            assert(is_neighbor(th, h));
                            lemma_has_dist_pred(o, obs, h, nd);
                            assert(!obs.contains(h));
                            assert(neighbors@.contains(h));
                        }
                    }
                }
                i += 1;
            }
            proof {
                assert forall|h: Axial| #[trigger] has_dist(o, obs, h, nd)
                    implies seq_has_hex(next_queue@, h) by {
                    lemma_has_dist_pred(o, obs, h, nd);
                    let p = choose|p: Axial| #[trigger] is_neighbor(p, h)
                        && has_dist(o, obs, p, (nd - 1) as nat);
                    assert(has_dist(o, obs, p, lay));
                    assert(seq_has_hex(queue@, p));
                    let j = choose|j: int| 0 <= j < queue@.len()
                        && (#[trigger] queue@[j]).hex == p;
                    assert(0 <= j < i && is_neighbor(queue@[j].hex, h));
                }
            }
            queue = next_queue;
            layer = next_d;
            proof {
                lay = nd;
                assert forall|i2: int| 0 <= i2 < visited@.len()
                    implies (#[trigger] visited@[i2]).distance <= layer
                        && has_dist(o, obs, visited@[i2].hex, visited@[i2].distance as nat) by {
                    if i2 < visited_snap.len() {
                        assert(visited@[i2] == visited_snap[i2]);
                    } else {
                        assert(visited@[i2] == queue@[i2 - visited_snap.len()]);
                    }
                }
                assert forall|h: Axial, d: nat| d <= lay && #[trigger] has_dist(o, obs, h, d)
                    implies seq_has_hex(visited@, h) by {
                    if d <= lay - 1 {
                        assert(seq_has_hex(visited_snap, h));
                        let j0 = choose|j0: int| 0 <= j0 < visited_snap.len()
                            && (#[trigger] visited_snap[j0]).hex == h;
                        assert(visited@[j0] == visited_snap[j0]);
                    } else {
                        assert(d == nd);
                        assert(seq_has_hex(queue@, h));
                        let j0 = choose|j0: int| 0 <= j0 < queue@.len()
                            && (#[trigger] queue@[j0]).hex == h;
                        assert(visited@[visited_snap.len() + j0] == queue@[j0]);
                    }
                }
            }
        }
        proof {
            if queue@.len() == 0 {
                assert forall|h: Axial| !#[trigger] has_dist(o, obs, h, lay) by {
                    if has_dist(o, obs, h, lay) {
                        assert(seq_has_hex(queue@, h));
                    }
                }
                assert forall|h: Axial, d: nat| d <= max_distance
                    && #[trigger] has_dist(o, obs, h, d) implies seq_has_hex(visited@, h) by {
                    if d > lay {
                        lemma_no_more_layers(o, obs, lay, d);
                        assert(false);
                    }
                }
            } else {
                assert(layer == max_distance);
            }
        }
        let mut result: Vec<HexDistance> = Vec::new();
        let mut i: usize = 0;
        while i < visited.len()
            invariant
                0 <= i <= visited@.len(),
                obs == obstacles@,
                o == origin,
                forall|j: int| 0 <= j < visited@.len()
                    ==> (#[trigger] visited@[j]).distance <= max_distance
                        && has_dist(o, obs, visited@[j].hex, visited@[j].distance as nat),
                forall|h: Axial, d: nat| d <= max_distance && #[trigger] has_dist(o, obs, h, d)
                    ==> seq_has_hex(visited@, h),
                forall|i2: int, j2: int| 0 <= i2 < j2 < visited@.len()
                    ==> visited@[i2].hex != visited@[j2].hex,
                forall|k: int| 0 <= k < result@.len()
                    ==> visited@.take(i as int).contains(#[trigger] result@[k])
                        && result@[k].hex != o,
                forall|j: int| 0 <= j < i && (#[trigger] visited@[j]).hex != o
                    ==> result@.contains(visited@[j]),
                forall|i2: int, j2: int| 0 <= i2 < j2 < result@.len()
                    ==> result@[i2].hex != result@[j2].hex,
            decreases visited@.len() - i,
        {
            let hd: HexDistance = visited[i];
            let ghost ii = i as int;
            if !(hd.hex == origin) {
                let ghost result_before = result@;
                result.push(hd);
                proof {
                    assert(visited@[ii] == hd);
                    assert forall|k: int| 0 <= k < result@.len()
                        implies visited@.take(ii + 1).contains(#[trigger] result@[k])
                            && result@[k].hex != o by {
                        if k < result@.len() - 1 {
                            assert(result@[k] == result_before[k]);
                            let v1 = choose|v1: int| 0 <= v1 < visited@.take(ii).len()
                                && visited@.take(ii)[v1] == result_before[k];
                            assert(visited@.take(ii + 1)[v1] == result_before[k]);
                            assert(visited@.take(ii + 1).contains(result@[k]));
                        } else {
                            assert(visited@.take(ii + 1)[ii] == hd);
                            assert(visited@.take(ii + 1).contains(hd));
                        }
                    }
                    assert forall|i2: int, j2: int| 0 <= i2 < j2 < result@.len()
                        implies result@[i2].hex != result@[j2].hex by {
                        if j2 == result@.len() - 1 {
                            assert(result@[i2] == result_before[i2]);
                            let v1 = choose|v1: int| 0 <= v1 < visited@.take(ii).len()
                                && visited@.take(ii)[v1] == result_before[i2];
                            assert(visited@[v1] == result_before[i2]);
                            assert(visited@[v1].hex != visited@[ii].hex);
                        }
                    }
                    assert forall|j: int| 0 <= j < i + 1 && (#[trigger] visited@[j]).hex != o
                        implies result@.contains(visited@[j]) by {
                        if j < i {
                            assert(result_before.contains(visited@[j]));
                            let rdx = choose|rdx: int| 0 <= rdx < result_before.len()
                                && result_before[rdx] == visited@[j];
                            assert(result@[rdx] == visited@[j]);
                            assert(result@.contains(visited@[j]));
                        } else {
                            assert(result@[result@.len() - 1] == hd);
                            assert(result@.contains(visited@[j]));
                        }
                    }
                }
            } else {
                proof {
                    assert forall|k: int| 0 <= k < result@.len()
                        implies visited@.take(ii + 1).contains(#[trigger] result@[k])
                            && result@[k].hex != o by {
                        let v1 = choose|v1: int| 0 <= v1 < visited@.take(ii).len()
                            && visited@.take(ii)[v1] == result@[k];
                        assert(visited@.take(ii + 1)[v1] == result@[k]);
                        assert(visited@.take(ii + 1).contains(result@[k]));
                    }
                }
            }
            i += 1;
        }
        proof {
            assert(visited@.take(visited@.len() as int) =~= visited@);
            assert forall|k: int| 0 <= k < result@.len()
                implies in_range_pair(o, obs, max_distance, #[trigger] result@[k]) by {
                let v1 = choose|v1: int| 0 <= v1 < visited@.len() && visited@[v1] == result@[k];
                assert(has_dist(o, obs, result@[k].hex, result@[k].distance as nat));
                if result@[k].distance == 0 {
                    assert(reachable_within(o, obs, result@[k].hex, 0));
                    assert(result@[k].hex == o);
                }
            }
            assert forall|h: Axial, d: nat|
                h != o && 1 <= d <= max_distance && #[trigger] has_dist(o, obs, h, d)
                implies result@.contains((HexDistance { hex: h, distance: d as usize })) by {
                assert(seq_has_hex(visited@, h));
                let j = choose|j: int| 0 <= j < visited@.len()
                    && (#[trigger] visited@[j]).hex == h;
                lemma_has_dist_unique(o, obs, h, visited@[j].distance as nat, d);
                assert(visited@[j] == (HexDistance { hex: h, distance: d as usize }));
                assert(result@.contains(visited@[j]));
            }
        }
        result
    }

    /// The hexes reachable from `self` within `max_distance` unobstructed
    /// steps, without their distances, the origin excluded.
    pub fn bfs(&self, obstacles: &Vec<Axial>, max_distance: usize) -> (r: Vec<Axial>)
        requires
            search_room(*self, max_distance),
        ensures
            forall|i: int| 0 <= i < r@.len() ==> #[trigger] r@[i] != *self
                && reachable_within(*self, obstacles@, r@[i], max_distance as nat),
            forall|h: Axial| h != *self
                && reachable_within(*self, obstacles@, h, max_distance as nat)
                ==> r@.contains(h),
            forall|i: int, j: int| 0 <= i < j < r@.len() ==> r@[i] != r@[j],
            max_distance == 0 ==> r@.len() == 0,
    {
        let ghost o = *self;
        let ghost obs = obstacles@;
        let ghost m: nat = max_distance as nat;
        let pairs: Vec<HexDistance> = self.new_bfs(obstacles, max_distance);
        let mut r: Vec<Axial> = Vec::new();
        let mut i: usize = 0;
        while i < pairs.len()
            invariant
                0 <= i <= pairs@.len(),
                r@.len() == i,
                forall|k: int| 0 <= k < i ==> #[trigger] r@[k] == pairs@[k].hex,
            decreases pairs@.len() - i,
        {
            let hd: HexDistance = pairs[i];
            r.push(hd.hex);
            i += 1;
        }
        proof {
            assert forall|k: int| 0 <= k < r@.len() implies #[trigger] r@[k] != o
                && reachable_within(o, obs, r@[k], m) by {
                assert(in_range_pair(o, obs, max_distance, pairs@[k]));
                lemma_reachable_mono(o, obs, r@[k], pairs@[k].distance as nat, m);
            }
            assert forall|h: Axial| h != o && reachable_within(o, obs, h, m)
                implies r@.contains(h) by {
                lemma_mindist_exists(o, obs, h, m);
                let d = choose|d: nat| d <= m && #[trigger] has_dist(o, obs, h, d);
                if d == 0 {
                    assert(reachable_within(o, obs, h, 0));
                    assert(h == o);
                }
                assert(pairs@.contains((HexDistance { hex: h, distance: d as usize })));
                let j = choose|j: int| 0 <= j < pairs@.len()
                    && pairs@[j] == (HexDistance { hex: h, distance: d as usize });
                assert(r@[j] == h);
            }
            assert forall|i2: int, j2: int| 0 <= i2 < j2 < r@.len()
                implies r@[i2] != r@[j2] by {
                assert(pairs@[i2].hex != pairs@[j2].hex);
            }
        }
        r
    }
}

} // verus!
