//! The named scenes a render can be asked for.
use vstd::prelude::*;

verus! {

pub struct Hexagon {}

impl Hexagon {
    pub fn name() -> (r: String)
        ensures
            r@ == "Hexagon"@,
    {
        "Hexagon".to_owned()
    }
}

pub struct ThreeSpheres {}

impl ThreeSpheres {
    pub fn name() -> (r: String)
        ensures
            r@ == "Three Spheres"@,
    {
        "Three Spheres".to_owned()
    }
}

pub struct TransparentCube {}

impl TransparentCube {
    pub fn name() -> (r: String)
        ensures
            r@ == "Transparent Cube"@,
    {
        "Transparent Cube".to_owned()
    }
}

/// Which of the named scenes.
#[derive(Clone, Copy, Debug, PartialEq, Eq, Structural)]
pub enum ScenarioKind {
    Hexagon,
    ThreeSpheres,
    TransparentCube,
}

impl ScenarioKind {
    pub open spec fn spec_name(self) -> Seq<char> {
        match self {
            ScenarioKind::Hexagon => "Hexagon"@,
            ScenarioKind::ThreeSpheres => "Three Spheres"@,
            ScenarioKind::TransparentCube => "Transparent Cube"@,
        }
    }

    /// The name a scene is asked for by.
    pub fn name(self) -> (r: String)
        ensures
            r@ == self.spec_name(),
    {
        match self {
            ScenarioKind::Hexagon => Hexagon::name(),
            ScenarioKind::ThreeSpheres => ThreeSpheres::name(),
            ScenarioKind::TransparentCube => TransparentCube::name(),
        }
    }

    /// The scene of that name, if there is one.
    pub fn from_name(name: &str) -> (r: Option<ScenarioKind>)
        ensures
            r matches Some(k) ==> k.spec_name() == name@,
            r is None <==> (forall|k: ScenarioKind| #[trigger] k.spec_name() != name@),
    {
        let n = name.to_owned();
        if n == Hexagon::name() {
            assert(ScenarioKind::Hexagon.spec_name() == name@);
            Some(ScenarioKind::Hexagon)
        } else if n == ThreeSpheres::name() {
            assert(ScenarioKind::ThreeSpheres.spec_name() == name@);
            Some(ScenarioKind::ThreeSpheres)
        } else if n == TransparentCube::name() {
            assert(ScenarioKind::TransparentCube.spec_name() == name@);
            Some(ScenarioKind::TransparentCube)
        } else {
            proof {
                assert forall|k: ScenarioKind| #[trigger] k.spec_name() != name@ by {
                    match k {
                        ScenarioKind::Hexagon => {},
                        ScenarioKind::ThreeSpheres => {},
                        ScenarioKind::TransparentCube => {},
                    }
                }
            }
            None
        }
    }

    /// The names of all scenes, in the order they are offered.
    pub fn list() -> (r: Vec<String>)
        ensures
            r@.len() == 3,
            r@[0]@ == ScenarioKind::Hexagon.spec_name(),
            r@[1]@ == ScenarioKind::ThreeSpheres.spec_name(),
            r@[2]@ == ScenarioKind::TransparentCube.spec_name(),
    {
        let mut v: Vec<String> = Vec::new();
        v.push(Hexagon::name());
        v.push(ThreeSpheres::name());
        v.push(TransparentCube::name());
        v
    }
}

} // verus!
