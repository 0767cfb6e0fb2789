use card_raytracer::nearest::{nearest, Candidate, Nearest};
use card_raytracer::scene::Cell;
use card_raytracer::surface::HitClass;

fn candidate(column: u32, row: u32, key: u32) -> Candidate {
    Candidate { cell: Cell { column, row }, key }
}

#[test]
fn no_candidate_leaves_the_sky() {
    let start = Nearest::Sky { limit: 1000 };
    let end = nearest(start, &Vec::new());
    assert_eq!(end, start);
    assert_eq!(end.class(), HitClass::Sky);
    assert_eq!(end.key(), 1000);
}

#[test]
fn ground_stands_where_no_sphere_is_nearer() {
    let start = Nearest::Ground { key: 50 };
    let offers = vec![candidate(1, 0, 50), candidate(2, 0, 51), candidate(3, 1, 4000)];
    let end = nearest(start, &offers);
    assert_eq!(end, Nearest::Ground { key: 50 });
    assert_eq!(end.class(), HitClass::Ground);
    assert_eq!(end.key(), 50);
}

#[test]
fn nearer_sphere_hides_the_ground() {
    let start = Nearest::Ground { key: 50 };
    let offers = vec![candidate(1, 0, 60), candidate(2, 3, 49), candidate(3, 1, 55)];
    let end = nearest(start, &offers);
    assert_eq!(end, Nearest::Sphere { key: 49, cell: Cell { column: 2, row: 3 } });
    assert_eq!(end.class(), HitClass::Sphere);
    assert_eq!(end.key(), 49);
}

#[test]
fn nearest_of_several_spheres_wins() {
    let start = Nearest::Sky { limit: u32::MAX };
    let offers = vec![
        candidate(0, 1, 900),
        candidate(0, 4, 300),
        candidate(1, 0, 700),
        candidate(1, 1, 200),
        candidate(1, 2, 250),
    ];
    assert_eq!(
        nearest(start, &offers),
        Nearest::Sphere { key: 200, cell: Cell { column: 1, row: 1 } }
    );
}

#[test]
fn first_of_equally_near_spheres_wins() {
    let start = Nearest::Sky { limit: 1000 };
    let offers = vec![candidate(5, 5, 10), candidate(6, 6, 10), candidate(7, 7, 10)];
    assert_eq!(
        nearest(start, &offers),
        Nearest::Sphere { key: 10, cell: Cell { column: 5, row: 5 } }
    );
}

#[test]
fn candidate_at_the_limit_does_not_count() {
    let start = Nearest::Sky { limit: 1000 };
    let offers = vec![candidate(1, 1, 1000), candidate(2, 2, 1001), candidate(3, 3, u32::MAX)];
    assert_eq!(nearest(start, &offers), start);
    let below = vec![candidate(1, 1, 1000), candidate(2, 2, 999)];
    assert_eq!(
        nearest(start, &below),
        Nearest::Sphere { key: 999, cell: Cell { column: 2, row: 2 } }
    );
}

#[test]
fn offer_reports_whether_the_candidate_was_taken() {
    let mut best = Nearest::Ground { key: 100 };
    assert!(!best.offer(candidate(0, 0, 100)));
    assert_eq!(best, Nearest::Ground { key: 100 });
    assert!(!best.offer(candidate(0, 0, 101)));
    assert_eq!(best, Nearest::Ground { key: 100 });
    assert!(best.offer(candidate(4, 2, 99)));
    assert_eq!(best, Nearest::Sphere { key: 99, cell: Cell { column: 4, row: 2 } });
    assert!(!best.offer(candidate(9, 9, 99)));
    assert_eq!(best, Nearest::Sphere { key: 99, cell: Cell { column: 4, row: 2 } });
    assert!(best.offer(candidate(9, 9, 0)));
    assert_eq!(best, Nearest::Sphere { key: 0, cell: Cell { column: 9, row: 9 } });
    assert!(!best.offer(candidate(1, 1, 0)));
}

#[test]
fn offering_one_by_one_agrees_with_the_whole_list() {
    let offers = vec![
        candidate(0, 0, 77),
        candidate(0, 1, 12),
        candidate(1, 0, 12),
        candidate(2, 0, 500),
        candidate(3, 0, 11),
    ];
    for start in [
        Nearest::Sky { limit: 1 << 30 },
        Nearest::Ground { key: 12 },
        Nearest::Ground { key: 5 },
        Nearest::Sphere { key: 80, cell: Cell { column: 18, row: 5 } },
    ] {
        let mut best = start;
        for offer in offers.iter() {
            best.offer(*offer);
        }
        assert_eq!(best, nearest(start, &offers));
    }
}

#[test]
fn keys_of_positive_distances_order_as_the_distances_do() {
    let distances = [0.0100001f32, 0.5, 1.0, 3.75, 9.0, 1.0e6, f32::MAX, f32::INFINITY];
    for a in distances {
        for b in distances {
            assert_eq!(a < b, a.to_bits() < b.to_bits());
        }
    }
    let start = Nearest::Ground { key: 7.5f32.to_bits() };
    let offers = vec![
        candidate(1, 0, 8.25f32.to_bits()),
        candidate(2, 0, 3.5f32.to_bits()),
        candidate(3, 0, 3.5000002f32.to_bits()),
    ];
    let end = nearest(start, &offers);
    assert_eq!(end.class(), HitClass::Sphere);
    assert_eq!(f32::from_bits(end.key()), 3.5);
}

#[test]
fn same_inputs_give_the_same_hit() {
    let start = Nearest::Sky { limit: 4096 };
    let offers = vec![candidate(1, 0, 60), candidate(2, 3, 49), candidate(3, 1, 55)];
    assert_eq!(nearest(start, &offers), nearest(start, &offers));
    assert_eq!(
        nearest(start, &offers).class().occludes(),
        nearest(start, &offers).class().occludes()
    );
}
