use hex_range::hex::index_of;
use hex_range::hex::Axial;

fn ax(q: i64, r: i64) -> Axial {
    Axial::new(q, r)
}

#[test]
fn new_stores_coordinates() {
    let a = ax(3, -7);
    assert_eq!(a.q, 3);
    assert_eq!(a.r, -7);
}

#[test]
fn add_is_componentwise() {
    let a = ax(2, -1).add(ax(-5, 4));
    assert_eq!(a, ax(-3, 3));
}

#[test]
fn distance_examples() {
    assert_eq!(ax(0, 0).distance(&ax(0, 0)), 0);
    assert_eq!(ax(0, 0).distance(&ax(1, 0)), 1);
    assert_eq!(ax(0, 0).distance(&ax(0, 1)), 1);
    assert_eq!(ax(0, 0).distance(&ax(-1, 1)), 1);
    assert_eq!(ax(0, 0).distance(&ax(2, 0)), 2);
    assert_eq!(ax(0, 0).distance(&ax(1, 1)), 2);
    assert_eq!(ax(0, 0).distance(&ax(-2, 1)), 2);
    assert_eq!(ax(0, 0).distance(&ax(3, -1)), 3);
    assert_eq!(ax(2, -1).distance(&ax(-1, 3)), 4);
}

#[test]
fn distance_is_symmetric() {
    for (a, b) in [
        (ax(0, 0), ax(4, -2)),
        (ax(1, 2), ax(-3, 5)),
        (ax(-7, 0), ax(7, 0)),
        (ax(250_000_000, 250_000_000), ax(-250_000_000, -250_000_000)),
    ] {
        assert_eq!(a.distance(&b), b.distance(&a));
        assert_eq!(a.distance(&a), 0);
    }
}

#[test]
fn distance_triangle_inequality_samples() {
    let pts = [ax(0, 0), ax(3, -1), ax(-2, 4), ax(5, 5), ax(-6, -1)];
    for a in pts {
        for b in pts {
            for c in pts {
                assert!(a.distance(&c) <= a.distance(&b) + b.distance(&c));
            }
        }
    }
}

#[test]
fn neighbors_follow_direction_order() {
    let obstacles: Vec<Axial> = Vec::new();
    let n = ax(2, 3).get_neighbors(&obstacles);
    assert_eq!(
        n,
        vec![ax(3, 3), ax(2, 4), ax(1, 4), ax(3, 2), ax(1, 3), ax(2, 2)]
    );
}

#[test]
fn neighbors_filter_obstacles() {
    let obstacles = vec![ax(1, 0), ax(0, -1)];
    let n = ax(0, 0).get_neighbors(&obstacles);
    assert_eq!(n, vec![ax(0, 1), ax(-1, 1), ax(1, -1), ax(-1, 0)]);
}

#[test]
fn neighbors_ignore_self_in_obstacles() {
    let obstacles = vec![ax(0, 0)];
    let n = ax(0, 0).get_neighbors(&obstacles);
    assert_eq!(n.len(), 6);
}

#[test]
fn index_of_finds_first_match() {
    let v = vec![ax(1, 0), ax(2, 2), ax(1, 0)];
    assert_eq!(index_of(&v, ax(2, 2)), Some(1));
    assert_eq!(index_of(&v, ax(1, 0)), Some(0));
    assert_eq!(index_of(&v, ax(5, 5)), None);
}
