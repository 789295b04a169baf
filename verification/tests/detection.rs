use aabb_sweep::primitives::aabb_aabb;
use aabb_sweep::update::Transform2;
use aabb_sweep::world::{AABBBundle, CollisionWorld};
use aabb_sweep::{AABBCollision, CollisionFilter, Vec2, AABB};

fn filter_all() -> CollisionFilter {
    CollisionFilter {
        self_layers: u32::MAX,
        collisions_mask: u32::MAX,
    }
}

fn aabb(min_x: i32, min_y: i32, max_x: i32, max_y: i32) -> AABB {
    AABB {
        min: Vec2 { x: min_x, y: min_y },
        max: Vec2 { x: max_x, y: max_y },
    }
}

fn pairs_of(events: &[AABBCollision]) -> Vec<(u64, u64)> {
    let mut v: Vec<(u64, u64)> = events
        .iter()
        .map(|e| {
            if e.entity1 <= e.entity2 {
                (e.entity1, e.entity2)
            } else {
                (e.entity2, e.entity1)
            }
        })
        .collect();
    v.sort();
    v
}

#[test]
fn filter_collides_test() {
    let a = CollisionFilter {
        self_layers: 1,
        collisions_mask: 2 | 4 | 8,
    };
    let b = CollisionFilter {
        self_layers: 2,
        collisions_mask: 1,
    };

    assert!(a.collides(b));
    assert!(b.collides(a));
}

#[test]
fn collides_is_not_commutative_test() {
    let a = CollisionFilter {
        self_layers: 0,
        collisions_mask: 2,
    };
    let b = CollisionFilter {
        self_layers: 2,
        collisions_mask: 0,
    };

    assert!(b.collides(a));
    assert!(!a.collides(b));
}

#[test]
fn all_layers_filters_collide_test() {
    let a = filter_all();
    let b = filter_all();
    assert!(a.collides(b));
    assert!(b.collides(a));
    assert!(a.collides(a));
}

#[test]
fn overlap_symmetric_test() {
    let cases = [
        (aabb(0, 0, 10, 10), aabb(5, 5, 15, 15)),
        (aabb(0, 0, 10, 10), aabb(20, 0, 30, 10)),
        (aabb(0, 0, 10, 10), aabb(10, 0, 20, 10)),
        (aabb(-5, -5, 5, 5), aabb(-1, -1, 1, 1)),
    ];
    for (a, b) in cases.iter() {
        assert_eq!(aabb_aabb(a, b), aabb_aabb(b, a));
    }
}

#[test]
fn touching_edge_boxes_overlap_test() {
    let a = aabb(0, 0, 10, 10);
    let b = aabb(10, 0, 20, 10);
    assert!(aabb_aabb(&a, &b));
}

#[test]
fn disjoint_boxes_never_overlap_test() {
    let a = aabb(0, 0, 10, 10);
    let b = aabb(20, 0, 30, 10);
    assert!(!aabb_aabb(&a, &b));
    let c = aabb(0, 20, 10, 30);
    assert!(!aabb_aabb(&a, &c));
}

#[test]
fn contained_box_overlaps_test() {
    let a = aabb(0, 0, 10, 10);
    let b = aabb(2, 2, 4, 4);
    assert!(aabb_aabb(&a, &b));
    assert!(aabb_aabb(&b, &a));
}

#[test]
fn detect_reports_overlapping_pair_test() {
    let mut w = CollisionWorld::new();
    let h0 = w.insert(AABBBundle {
        aabb: aabb(0, 0, 10, 10),
        filter: filter_all(),
        transform: Transform2::identity(),
    });
    let h1 = w.insert(AABBBundle {
        aabb: aabb(5, 5, 15, 15),
        filter: filter_all(),
        transform: Transform2::identity(),
    });
    let h2 = w.insert(AABBBundle {
        aabb: aabb(100, 100, 110, 110),
        filter: filter_all(),
        transform: Transform2::identity(),
    });
    assert_eq!((h0, h1, h2), (0, 1, 2));
    let events = w.detect();
    assert_eq!(pairs_of(&events), vec![(0, 1)]);
}

#[test]
fn no_self_pair_test() {
    let mut w = CollisionWorld::new();
    for _ in 0..8 {
        w.insert(AABBBundle {
            aabb: aabb(0, 0, 10, 10),
            filter: filter_all(),
            transform: Transform2::identity(),
        });
    }
    let events = w.detect();
    // every one of the 8 coincident boxes pairs with every other,
    // but never with itself
    assert_eq!(events.len(), 8 * 7 / 2);
    for e in events.iter() {
        assert_ne!(e.entity1, e.entity2);
    }
}

#[test]
fn filter_blocks_unrelated_pair_test() {
    let mut w = CollisionWorld::new();
    let deaf = CollisionFilter {
        self_layers: 1,
        collisions_mask: 0,
    };
    w.insert(AABBBundle {
        aabb: aabb(0, 0, 10, 10),
        filter: deaf,
        transform: Transform2::identity(),
    });
    w.insert(AABBBundle {
        aabb: aabb(5, 0, 15, 10),
        filter: CollisionFilter {
            self_layers: 2,
            collisions_mask: 4,
        },
        transform: Transform2::identity(),
    });
    let events = w.detect();
    assert!(events.is_empty());
}

#[test]
fn filter_one_direction_suffices_test() {
    let mut w = CollisionWorld::new();
    // only the second object listens for the first one's layer;
    // the pair must still be reported
    w.insert(AABBBundle {
        aabb: aabb(0, 0, 10, 10),
        filter: CollisionFilter {
            self_layers: 2,
            collisions_mask: 0,
        },
        transform: Transform2::identity(),
    });
    w.insert(AABBBundle {
        aabb: aabb(5, 0, 15, 10),
        filter: CollisionFilter {
            self_layers: 0,
            collisions_mask: 2,
        },
        transform: Transform2::identity(),
    });
    let events = w.detect();
    assert_eq!(pairs_of(&events), vec![(0, 1)]);
}

#[test]
fn empty_world_emits_nothing_test() {
    let mut w = CollisionWorld::new();
    let axis_before = w.sort_axis();
    let events = w.detect();
    assert!(events.is_empty());
    assert_eq!(w.sort_axis(), axis_before);
}

#[test]
fn sweep_cost_scales_linearly_in_a_line_test() {
    // objects in a line along x with non-overlapping extents: the
    // pruning window is empty, so the sweep examines no candidate
    let n: u64 = 64;
    let mut line = CollisionWorld::new();
    for i in 0..n {
        line.insert(AABBBundle {
            aabb: aabb(0, 0, 5, 5),
            filter: filter_all(),
            transform: Transform2::from_translation(15 * i as i32, 0),
        });
    }
    let events = line.detect();
    assert!(events.is_empty());
    assert!(line.candidates_examined() <= 2 * n);

    // coincident objects are the worst case: every pair is examined
    let mut pile = CollisionWorld::new();
    for _ in 0..n {
        pile.insert(AABBBundle {
            aabb: aabb(0, 0, 5, 5),
            filter: filter_all(),
            transform: Transform2::identity(),
        });
    }
    pile.detect();
    assert_eq!(pile.candidates_examined(), n * (n - 1) / 2);
}

#[test]
fn axis_selection_follows_spread_test() {
    let mut w = CollisionWorld::new();
    // centers vary widely in x (symmetric about the origin) and are
    // constant in y
    let spread = [-300, -100, 100, 300];
    for &x in spread.iter() {
        w.insert(AABBBundle {
            aabb: aabb(-1, -1, 1, 1),
            filter: filter_all(),
            transform: Transform2::from_translation(x, 0),
        });
    }
    assert_eq!(w.sort_axis(), 0);
    w.detect();
    assert_eq!(w.sort_axis(), 0);

    // swap the spread to y: the axis flips on the next cycle
    for (h, &y) in spread.iter().enumerate() {
        w.set_transform(h, Transform2::from_translation(0, y));
    }
    w.update_aabbs();
    w.detect();
    assert_eq!(w.sort_axis(), 1);
}

#[test]
fn detection_is_deterministic_test() {
    let mut w = CollisionWorld::new();
    let boxes = [
        (0, 0, 10, 10),
        (5, 5, 15, 15),
        (8, -2, 12, 3),
        (100, 0, 110, 10),
        (104, 4, 120, 20),
        (-50, -50, -40, -40),
    ];
    for &(ax, ay, bx, by) in boxes.iter() {
        w.insert(AABBBundle {
            aabb: aabb(ax, ay, bx, by),
            filter: filter_all(),
            transform: Transform2::identity(),
        });
    }
    // the second run may sort by another axis, but for unchanged
    // inputs it must report exactly the same pair set
    let first = pairs_of(&w.detect());
    let second = pairs_of(&w.detect());
    assert_eq!(first, second);
    assert!(!first.is_empty());
}

#[test]
fn stale_world_aabb_until_update_test() {
    let mut w = CollisionWorld::new();
    w.insert(AABBBundle {
        aabb: aabb(0, 0, 10, 10),
        filter: filter_all(),
        transform: Transform2::identity(),
    });
    w.insert(AABBBundle {
        aabb: aabb(0, 0, 10, 10),
        filter: filter_all(),
        transform: Transform2::identity(),
    });
    assert_eq!(pairs_of(&w.detect()), vec![(0, 1)]);

    // moving an object does not take effect until the update pass
    w.set_transform(1, Transform2::from_translation(1000, 0));
    assert_eq!(pairs_of(&w.detect()), vec![(0, 1)]);
    w.update_aabbs();
    assert!(w.detect().is_empty());
}
