use nbody_rs::qtree::{Bounds, Items, QuadTree, Quadrant, QueryItems, DEFAULT_CAPACITY};

fn rect(x: i32, y: i32, width: u32, height: u32) -> Bounds {
    Bounds { x, y, width, height }
}

fn unit(x: i32, y: i32) -> Bounds {
    rect(x, y, 1, 1)
}

fn drain(mut items: Items<'_, Bounds>) -> Vec<Bounds> {
    let mut out = Vec::new();
    while let Some(b) = items.next() {
        out.push(b);
    }
    out
}

fn drain_query(mut items: QueryItems<Bounds>) -> Vec<Bounds> {
    let mut out = Vec::new();
    while let Some(b) = items.next() {
        out.push(b);
    }
    out
}

#[test]
fn test_build() {
    let mut qt = QuadTree::new(Bounds {
        x: 0,
        y: 0,
        width: 10,
        height: 10,
    });

    qt.insert(unit(1, 1));
    qt.insert(unit(9, 9));
    qt.insert(unit(1, 9));
    qt.insert(unit(9, 1));
    qt.insert(unit(8, 1));
    qt.insert(unit(8, 8));

    assert_eq!(2 + 2, 4);
    assert_eq!(drain(qt.iter()).len(), 6);
}

#[test]
fn build_order_after_split() {
    let mut qt = QuadTree::new(rect(0, 0, 10, 10));
    for b in [unit(1, 1), unit(9, 9), unit(1, 9), unit(9, 1), unit(8, 1), unit(8, 8)] {
        qt.insert(b);
    }
    assert!(qt.is_split());
    assert_eq!(
        drain(qt.iter()),
        vec![unit(9, 9), unit(1, 9), unit(9, 1), unit(1, 1), unit(8, 1), unit(8, 8)]
    );
}

#[test]
fn quadrant_regions_even() {
    let b = rect(0, 0, 10, 10);
    assert_eq!(b.quadrant_region(Quadrant::TL), rect(0, 0, 5, 5));
    assert_eq!(b.quadrant_region(Quadrant::TR), rect(5, 0, 5, 5));
    assert_eq!(b.quadrant_region(Quadrant::BR), rect(5, 5, 5, 5));
    assert_eq!(b.quadrant_region(Quadrant::BL), rect(0, 5, 5, 5));
}

#[test]
fn quadrant_regions_odd() {
    let b = rect(-3, 2, 11, 7);
    assert_eq!(b.quadrant_region(Quadrant::TL), rect(-3, 2, 5, 3));
    assert_eq!(b.quadrant_region(Quadrant::TR), rect(2, 2, 6, 3));
    assert_eq!(b.quadrant_region(Quadrant::BR), rect(2, 5, 6, 4));
    assert_eq!(b.quadrant_region(Quadrant::BL), rect(-3, 5, 5, 4));
}

#[test]
fn quadrant_is_strict() {
    let b = rect(0, 0, 10, 10);
    assert_eq!(b.quadrant(&unit(1, 1)), Some(Quadrant::TL));
    assert_eq!(b.quadrant(&unit(8, 1)), Some(Quadrant::TR));
    assert_eq!(b.quadrant(&unit(8, 8)), Some(Quadrant::BR));
    assert_eq!(b.quadrant(&unit(1, 8)), Some(Quadrant::BL));
    // touching an outer edge
    assert_eq!(b.quadrant(&unit(9, 9)), None);
    assert_eq!(b.quadrant(&unit(0, 1)), None);
    // touching or crossing the dividing lines
    assert_eq!(b.quadrant(&unit(4, 1)), None);
    assert_eq!(b.quadrant(&unit(5, 1)), None);
    assert_eq!(b.quadrant(&rect(4, 4, 2, 2)), None);
}

#[test]
fn quadrant_indices() {
    assert_eq!(Quadrant::TL.to_usize(), 0);
    assert_eq!(Quadrant::TR.to_usize(), 1);
    assert_eq!(Quadrant::BR.to_usize(), 2);
    assert_eq!(Quadrant::BL.to_usize(), 3);
}

#[test]
fn touches_closed_rectangles() {
    let a = rect(0, 0, 5, 5);
    assert!(a.touches(&rect(5, 5, 1, 1)));
    assert!(a.touches(&rect(2, 2, 1, 1)));
    assert!(!a.touches(&rect(6, 0, 1, 1)));
    assert!(!a.touches(&rect(0, -3, 1, 2)));
}

#[test]
fn fresh_tree_is_empty() {
    let qt: QuadTree<Bounds> = QuadTree::new(rect(0, 0, 100, 100));
    assert!(!qt.is_split());
    assert!(qt.child_node(Quadrant::TL).is_none());
    assert_eq!(drain(qt.iter()), Vec::<Bounds>::new());
}

#[test]
fn within_capacity_no_split() {
    let mut qt = QuadTree::new(rect(0, 0, 100, 100));
    let es = vec![unit(10, 10), unit(20, 20), unit(60, 10), unit(60, 60)];
    assert_eq!(es.len(), DEFAULT_CAPACITY);
    for b in es.iter() {
        qt.insert(*b);
        assert!(!qt.is_split());
    }
    assert_eq!(drain(qt.iter()), es);
}

#[test]
fn one_past_capacity_splits_once() {
    let mut qt = QuadTree::new(rect(0, 0, 100, 100));
    let es = vec![unit(10, 10), unit(60, 10), unit(60, 60), unit(10, 60), unit(20, 20)];
    for b in es.iter() {
        qt.insert(*b);
    }
    assert!(qt.is_split());
    for q in [Quadrant::TL, Quadrant::TR, Quadrant::BR, Quadrant::BL] {
        let c = qt.child_node(q).unwrap();
        assert!(!c.is_split());
    }
    let tl = qt.child_node(Quadrant::TL).unwrap();
    assert_eq!(drain(tl.iter()), vec![unit(10, 10), unit(20, 20)]);
    assert_eq!(
        drain(qt.iter()),
        vec![unit(10, 10), unit(20, 20), unit(60, 10), unit(60, 60), unit(10, 60)]
    );
}

#[test]
fn straddler_stays_at_root() {
    let mut qt = QuadTree::new(rect(0, 0, 100, 100));
    let middle = rect(45, 45, 10, 10);
    qt.insert(middle);
    for b in [unit(10, 10), unit(60, 10), unit(60, 60), unit(10, 60), unit(20, 20), unit(70, 70)] {
        qt.insert(b);
    }
    assert!(qt.is_split());
    let all = drain(qt.iter());
    assert_eq!(all.len(), 7);
    assert_eq!(all[0], middle);
    for q in [Quadrant::TL, Quadrant::TR, Quadrant::BR, Quadrant::BL] {
        let c = qt.child_node(q).unwrap();
        assert!(!drain(c.iter()).contains(&middle));
    }
}

#[test]
fn deep_split_when_one_quadrant_overflows() {
    let mut qt = QuadTree::new(rect(0, 0, 64, 64));
    for i in 0..5 {
        qt.insert(unit(2 + 2 * i, 2));
    }
    assert!(qt.is_split());
    let tl = qt.child_node(Quadrant::TL).unwrap();
    assert!(tl.is_split());
    assert_eq!(drain(qt.iter()).len(), 5);
}

#[test]
fn max_depth_stops_splitting() {
    let mut qt = QuadTree::with_limits(rect(0, 0, 64, 64), 1, 0);
    for i in 0..5 {
        qt.insert(unit(2 + 2 * i, 2));
    }
    assert!(!qt.is_split());
    assert_eq!(drain(qt.iter()).len(), 5);
}

#[test]
fn explicit_split_of_small_leaf() {
    let mut qt = QuadTree::new(rect(0, 0, 100, 100));
    qt.insert(unit(10, 10));
    qt.insert(rect(40, 40, 20, 20));
    qt.split();
    assert!(qt.is_split());
    assert_eq!(drain(qt.iter()), vec![rect(40, 40, 20, 20), unit(10, 10)]);
}

#[test]
fn query_follows_insertion_path() {
    let mut qt = QuadTree::new(rect(0, 0, 100, 100));
    let middle = rect(45, 45, 10, 10);
    for b in [middle, unit(10, 10), unit(60, 10), unit(60, 60), unit(10, 60), unit(20, 20)] {
        qt.insert(b);
    }
    let near = drain_query(qt.query(&unit(30, 30)));
    assert_eq!(near, vec![middle, unit(10, 10), unit(20, 20)]);
}

#[test]
fn query_straddling_collects_overlapping_children() {
    let mut qt = QuadTree::new(rect(0, 0, 100, 100));
    for b in [unit(10, 10), unit(60, 10), unit(60, 60), unit(10, 60), unit(20, 20)] {
        qt.insert(b);
    }
    // crosses the vertical dividing line in the top half only
    let near = drain_query(qt.query(&rect(40, 10, 20, 5)));
    assert_eq!(near, vec![unit(10, 10), unit(20, 20), unit(60, 10)]);
}

#[test]
fn query_on_leaf_gives_its_elements() {
    let mut qt = QuadTree::new(rect(0, 0, 100, 100));
    qt.insert(unit(10, 10));
    qt.insert(unit(80, 80));
    let near = drain_query(qt.query(&unit(50, 50)));
    assert_eq!(near, vec![unit(10, 10), unit(80, 80)]);
}
