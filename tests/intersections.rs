use ray_tracer::intersections::{t_key, Intersection};

fn at(t: f64, object: usize) -> Intersection {
    Intersection::new(t_key(t.to_bits()), object)
}

#[test]
fn intersection_encapsulates_t_and_object() {
    let t = 3.5;
    let intersection = at(t, 1);

    assert!(intersection.get_t_key() == t_key(t.to_bits()));
    assert_eq!(intersection.object, 1);
}

#[test]
fn aggregate_intersections() {
    let i1 = at(1.0, 1);
    let i2 = at(2.0, 1);

    let xs = vec![i1, i2];

    assert!(xs.len() == 2);
    assert!(xs[0].get_t_key() == t_key(1.0f64.to_bits()));
    assert!(xs[1].get_t_key() == t_key(2.0f64.to_bits()));
}

#[test]
fn hit_when_all_intersections_are_positives() {
    let xs = vec![at(1.0, 1), at(2.0, 1)];
    assert!(Intersection::hit(&xs) == Some(0));
}

#[test]
fn hit_when_some_intersections_are_negatives() {
    let xs = vec![at(-1.0, 1), at(1.0, 1)];
    assert!(Intersection::hit(&xs) == Some(1));
}

#[test]
fn hit_when_all_intersections_are_negatives() {
    let xs = vec![at(-2.0, 1), at(-1.0, 1)];
    assert!(Intersection::hit(&xs) == None);
}

#[test]
fn hit_is_always_the_lowest_nonnegative_intersection() {
    let xs = vec![at(5.0, 1), at(7.0, 1), at(-3.0, 1), at(2.0, 1)];
    assert!(Intersection::hit(&xs) == Some(3));
}

#[test]
fn hit_of_an_empty_list_is_none() {
    assert_eq!(Intersection::hit(&[]), None);
}

#[test]
fn hit_ignores_a_zero_distance() {
    let xs = vec![at(0.0, 1), at(-0.0, 2), at(0.5, 3)];
    assert_eq!(Intersection::hit(&xs), Some(2));
    let only_zero = vec![at(0.0, 1), at(-0.0, 2)];
    assert_eq!(Intersection::hit(&only_zero), None);
}

#[test]
fn hit_takes_the_first_of_equal_distances() {
    let xs = vec![at(4.0, 1), at(2.0, 2), at(2.0, 3)];
    assert_eq!(Intersection::hit(&xs), Some(1));
}

#[test]
fn keys_order_as_distances_do() {
    let ts: [f64; 11] = [-1e300, -7.5, -1.0, -1e-300, -0.0, 0.0, 1e-300, 0.25, 1.0, 3.5, 1e300];
    for w in ts.windows(2) {
        assert!(t_key(w[0].to_bits()) <= t_key(w[1].to_bits()));
    }
    assert_eq!(t_key(0.0f64.to_bits()), 0);
    assert_eq!(t_key((-0.0f64).to_bits()), -1);
    assert_eq!(t_key(1.0f64.to_bits()), 0x3FF0_0000_0000_0000);
    assert_eq!(t_key((-1.0f64).to_bits()), -0x3FF0_0000_0000_0000 - 1);
}

fn n1_n2_scenario() -> Vec<Intersection> {
    let (a, b, c) = (10, 20, 30);
    vec![at(2.0, a), at(2.75, b), at(3.25, c), at(4.75, b), at(5.25, c), at(6.0, a)]
}

fn index_of(object: Option<usize>) -> f64 {
    match object {
        None => 1.0,
        Some(10) => 1.5,
        Some(20) => 2.0,
        Some(30) => 2.5,
        Some(_) => panic!("unknown object"),
    }
}

fn n1_n2(hit: usize) -> (f64, f64) {
    let xs = n1_n2_scenario();
    let (before, after) = Intersection::refraction_boundary(&xs, hit);
    (index_of(before), index_of(after))
}

#[test]
fn finding_n1_and_n2_at_various_intersections_0() {
    assert_eq!(n1_n2(0), (1.0, 1.5));
}

#[test]
fn finding_n1_and_n2_at_various_intersections_1() {
    assert_eq!(n1_n2(1), (1.5, 2.0));
}

#[test]
fn finding_n1_and_n2_at_various_intersections_2() {
    assert_eq!(n1_n2(2), (2.0, 2.5));
}

#[test]
fn finding_n1_and_n2_at_various_intersections_3() {
    assert_eq!(n1_n2(3), (2.5, 2.5));
}

#[test]
fn finding_n1_and_n2_at_various_intersections_4() {
    assert_eq!(n1_n2(4), (2.5, 1.5));
}

#[test]
fn finding_n1_and_n2_at_various_intersections_5() {
    assert_eq!(n1_n2(5), (1.5, 1.0));
}

#[test]
fn refraction_boundary_objects_across_three_spheres() {
    let xs = n1_n2_scenario();
    let sides: Vec<(Option<usize>, Option<usize>)> =
        (0..6).map(|i| Intersection::refraction_boundary(&xs, i)).collect();
    assert_eq!(
        sides,
        vec![
            (None, Some(10)),
            (Some(10), Some(20)),
            (Some(20), Some(30)),
            (Some(30), Some(30)),
            (Some(30), Some(10)),
            (Some(10), None),
        ]
    );
}

#[test]
fn a_single_surface_is_entered_from_empty_space() {
    let xs = vec![at(1.0, 7)];
    assert_eq!(Intersection::refraction_boundary(&xs, 0), (None, Some(7)));
}

#[test]
fn ordering_by_distance_sorts_and_keeps_ties_in_place() {
    let xs = vec![at(6.0, 1), at(-1.0, 2), at(4.5, 3), at(4.0, 4), at(4.5, 5), at(5.5, 6)];
    assert_eq!(Intersection::order_by_t(&xs), vec![1, 3, 2, 4, 5, 0]);
}

#[test]
fn ordering_an_empty_or_sorted_list() {
    assert!(Intersection::order_by_t(&[]).is_empty());
    let xs = vec![at(1.0, 1), at(2.0, 1), at(3.0, 1)];
    assert_eq!(Intersection::order_by_t(&xs), vec![0, 1, 2]);
}

#[test]
fn an_object_between_the_point_and_the_light_occludes() {
    let light = t_key(10.0f64.to_bits());
    assert!(Intersection::occluded(&[at(-2.0, 1), at(4.0, 1), at(6.0, 1)], light));
}

#[test]
fn objects_behind_the_point_or_the_light_do_not_occlude() {
    let light = t_key(10.0f64.to_bits());
    assert!(!Intersection::occluded(&[at(-4.0, 1), at(-2.0, 1)], light));
    assert!(!Intersection::occluded(&[at(12.0, 1), at(14.0, 1)], light));
    assert!(!Intersection::occluded(&[at(10.0, 1)], light));
    assert!(!Intersection::occluded(&[], light));
}
