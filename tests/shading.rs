use ray_tracer::shading::{secondary_budget, MAX_DEPTH};

#[test]
fn the_reflected_color_at_the_maximum_recursive_depth() {
    // a fully reflective surface reached with no budget left casts no ray
    assert_eq!(secondary_budget(0, true), None);
}

#[test]
fn the_refracted_color_at_the_maximum_recursive_depth() {
    // a glass surface reached with no budget left casts no ray
    assert_eq!(secondary_budget(0, true), None);
    assert_eq!(secondary_budget(0, false), None);
}

#[test]
fn the_reflected_color_for_a_nonreflective_material() {
    assert_eq!(secondary_budget(MAX_DEPTH, false), None);
}

#[test]
fn the_refracted_color_with_an_opaque_surface() {
    assert_eq!(secondary_budget(5, false), None);
}

#[test]
fn a_secondary_ray_spends_one_unit() {
    assert_eq!(secondary_budget(5, true), Some(4));
    assert_eq!(secondary_budget(1, true), Some(0));
}

#[test]
fn color_at_with_mutually_reflecive_surfaces() {
    // Two mirrors facing each other: every hit casts a reflected ray.
    let mut budget = MAX_DEPTH;
    let mut rays = 1;
    while let Some(next) = secondary_budget(budget, true) {
        assert!(next < budget);
        budget = next;
        rays += 1;
    }
    assert_eq!(rays, MAX_DEPTH + 1);
    assert_eq!(budget, 0);
}
