//! The integer side of a ray tracer: the scene graph that composes object
//! transforms, the ordering of intersections and the choice of the visible
//! hit, shadow tests, the refractive-index containment stack, the depth
//! budget that bounds secondary rays, and the pixel buffer that a render
//! fills. Distances, colors and matrices are the caller's: the library sees
//! a distance only through an integer key that orders as it does.
pub mod canvas;
pub mod intersections;
pub mod scenarios;
pub mod scene_graph;
pub mod shading;
pub mod shapes;
