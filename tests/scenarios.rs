use ray_tracer::scenarios::{Hexagon, ScenarioKind, ThreeSpheres, TransparentCube};
use ray_tracer::shapes::{Cube, PatternsKind, Plane};

#[test]
fn scenario_names() {
    assert_eq!(Hexagon::name(), "Hexagon");
    assert_eq!(ThreeSpheres::name(), "Three Spheres");
    assert_eq!(TransparentCube::name(), "Transparent Cube");
}

#[test]
fn scenarios_are_listed_in_order() {
    assert_eq!(
        ScenarioKind::list(),
        vec!["Hexagon", "Three Spheres", "Transparent Cube"]
    );
}

#[test]
fn scenarios_are_found_by_name() {
    assert_eq!(ScenarioKind::from_name("Hexagon"), Some(ScenarioKind::Hexagon));
    assert_eq!(
        ScenarioKind::from_name("Three Spheres"),
        Some(ScenarioKind::ThreeSpheres)
    );
    assert_eq!(
        ScenarioKind::from_name("Transparent Cube"),
        Some(ScenarioKind::TransparentCube)
    );
    assert_eq!(ScenarioKind::from_name("hexagon"), None);
    assert_eq!(ScenarioKind::from_name(""), None);
    for kind in [ScenarioKind::Hexagon, ScenarioKind::ThreeSpheres, ScenarioKind::TransparentCube] {
        assert_eq!(ScenarioKind::from_name(&kind.name()), Some(kind));
    }
}

#[test]
fn unit_shapes_and_pattern_kinds() {
    assert_eq!(Cube::new(), Cube {});
    assert_eq!(Plane::new(), Plane {});
    assert_ne!(PatternsKind::Stripe, PatternsKind::Checker);
}
