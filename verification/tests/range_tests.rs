use hex_range::board::default_obstacles;
use hex_range::hex::Axial;
use hex_range::hex::HexDistance;

fn ax(q: i64, r: i64) -> Axial {
    Axial::new(q, r)
}

fn as_sorted_triples(range: &[HexDistance]) -> Vec<(i64, i64, usize)> {
    let mut v: Vec<(i64, i64, usize)> = range
        .iter()
        .map(|hd| (hd.hex.q, hd.hex.r, hd.distance))
        .collect();
    v.sort();
    v
}

#[test]
fn zero_budget_is_empty() {
    let none: Vec<Axial> = Vec::new();
    assert!(ax(0, 0).new_bfs(&none, 0).is_empty());
    assert!(ax(7, -3).new_bfs(&default_obstacles(), 0).is_empty());
    assert!(ax(0, 0).bfs(&none, 0).is_empty());
}

#[test]
fn unobstructed_ring_counts() {
    // 6k hexes at each distance k, 3n(n+1) in all
    let none: Vec<Axial> = Vec::new();
    for n in 1..=4usize {
        let range = ax(0, 0).new_bfs(&none, n);
        assert_eq!(range.len(), 3 * n * (n + 1));
        for k in 1..=n {
            assert_eq!(range.iter().filter(|hd| hd.distance == k).count(), 6 * k);
        }
        for hd in &range {
            assert_eq!(ax(0, 0).distance(&hd.hex), hd.distance);
        }
    }
}

#[test]
fn origin_never_in_result() {
    let layouts: Vec<Vec<Axial>> = vec![
        Vec::new(),
        default_obstacles(),
        vec![ax(0, 0)],
        vec![ax(1, 0), ax(0, 1), ax(-1, 1), ax(1, -1), ax(-1, 0), ax(0, -1)],
    ];
    for obstacles in &layouts {
        for budget in 0..=3usize {
            let range = ax(0, 0).new_bfs(obstacles, budget);
            assert!(range.iter().all(|hd| hd.hex != ax(0, 0)));
        }
    }
}

#[test]
fn surrounded_origin_reaches_nothing() {
    let wall = vec![ax(1, 0), ax(0, 1), ax(-1, 1), ax(1, -1), ax(-1, 0), ax(0, -1)];
    assert!(ax(0, 0).new_bfs(&wall, 10).is_empty());
}

#[test]
fn obstacle_blocking_small_map() {
    // budget 2 around the origin: 18 hexes free; blocking (1,0) removes it
    // and (2,0), whose only two-step paths run through it
    let free: Vec<Axial> = Vec::new();
    let blocked = vec![ax(1, 0)];
    let before = ax(0, 0).new_bfs(&free, 2);
    let after = ax(0, 0).new_bfs(&blocked, 2);
    assert_eq!(before.len(), 18);
    assert_eq!(after.len(), 16);
    assert!(before.iter().any(|hd| hd.hex == ax(1, 0) && hd.distance == 1));
    assert!(before.iter().any(|hd| hd.hex == ax(2, 0) && hd.distance == 2));
    assert!(after.iter().all(|hd| hd.hex != ax(1, 0) && hd.hex != ax(2, 0)));
    // every other hex keeps its distance
    for hd in &before {
        if hd.hex != ax(1, 0) && hd.hex != ax(2, 0) {
            assert!(after.iter().any(|h2| h2.hex == hd.hex && h2.distance == hd.distance));
        }
    }
}

#[test]
fn determinism_under_obstacle_order() {
    let a = vec![ax(0, 1), ax(1, 1), ax(2, 1), ax(3, 1), ax(-3, 1), ax(-3, 0), ax(-3, -1)];
    let mut b: Vec<Axial> = a.iter().rev().cloned().collect();
    b.push(ax(0, 1)); // a duplicate changes nothing
    let r1 = ax(0, 0).new_bfs(&a, 4);
    let r2 = ax(0, 0).new_bfs(&b, 4);
    assert_eq!(as_sorted_triples(&r1), as_sorted_triples(&r2));
    let r3 = ax(0, 0).new_bfs(&a, 4);
    assert_eq!(as_sorted_triples(&r1), as_sorted_triples(&r3));
}

#[test]
fn default_layout_scenario() {
    let obstacles = default_obstacles();
    let range = ax(0, 0).new_bfs(&obstacles, 4);
    for o in &obstacles {
        assert!(range.iter().all(|hd| hd.hex != *o));
    }
    let expected: Vec<(i64, i64, usize)> = vec![
        (-1, 0, 1), (-1, 1, 1), (0, -1, 1), (1, -1, 1), (1, 0, 1),
        (-2, 0, 2), (-2, 1, 2), (-2, 2, 2), (-1, -1, 2), (-1, 2, 2),
        (0, -2, 2), (1, -2, 2), (2, -2, 2), (2, -1, 2), (2, 0, 2),
        (-3, 2, 3), (-3, 3, 3), (-2, -1, 3), (-2, 3, 3), (-1, -2, 3),
        (-1, 3, 3), (0, -3, 3), (0, 2, 3), (1, -3, 3), (2, -3, 3),
        (3, -3, 3), (3, -2, 3), (3, -1, 3), (3, 0, 3),
        (-4, 2, 4), (-4, 3, 4), (-4, 4, 4), (-3, 4, 4), (-2, -2, 4),
        (-2, 4, 4), (-1, -3, 4), (-1, 4, 4), (0, -4, 4), (0, 3, 4),
        (1, -4, 4), (1, 2, 4), (2, -4, 4), (3, -4, 4), (4, -4, 4),
        (4, -3, 4), (4, -2, 4), (4, -1, 4), (4, 0, 4),
    ];
    let mut expected = expected;
    expected.sort();
    assert_eq!(as_sorted_triples(&range), expected);
}

#[test]
fn bfs_matches_new_bfs_membership() {
    let obstacles = default_obstacles();
    let plain = ax(0, 0).bfs(&obstacles, 3);
    let tagged = ax(0, 0).new_bfs(&obstacles, 3);
    assert_eq!(plain.len(), tagged.len());
    for hd in &tagged {
        assert!(plain.contains(&hd.hex));
    }
}

#[test]
fn first_visit_wins_distance_is_minimal() {
    // (1, 1) can be reached many ways; its tag is the shortest way
    let none: Vec<Axial> = Vec::new();
    let range = ax(0, 0).new_bfs(&none, 4);
    let hd = range.iter().find(|hd| hd.hex == ax(1, 1)).unwrap();
    assert_eq!(hd.distance, 2);
    // each hex appears exactly once
    let mut hexes: Vec<(i64, i64)> = range.iter().map(|hd| (hd.hex.q, hd.hex.r)).collect();
    hexes.sort();
    let before = hexes.len();
    hexes.dedup();
    assert_eq!(hexes.len(), before);
}

#[test]
fn origin_inside_obstacles_still_searches() {
    // only destination hexes are filtered, so a unit standing on an
    // obstacle hex still has its full neighborhood
    let obstacles = vec![ax(0, 0)];
    let range = ax(0, 0).new_bfs(&obstacles, 1);
    assert_eq!(range.len(), 6);
}
