use vstd::prelude::*;

verus! {

/// Which mesh an entity draws, and whether it is drawn at all.
#[derive(Clone, Copy, Debug, PartialEq, Eq, Structural)]
pub struct MeshRenderer {
    pub mesh_id: Option<usize>,
    pub visible: bool,
}

impl Default for MeshRenderer {
    fn default() -> (r: Self)
        ensures
            r.mesh_id is None,
            r.visible,
    {
        MeshRenderer { mesh_id: None, visible: true }
    }
}

/// The kind of light an entity emits.
#[derive(Clone, Copy, Debug, PartialEq, Eq, Structural)]
pub enum LightKind {
    Directional,
    Point,
    Spot,
}

/// The shape of a collider.
#[derive(Clone, Copy, Debug, PartialEq, Eq, Structural)]
pub enum ColliderShape {
    Box,
    Sphere,
}

/// The nine anchor points a UI element can be positioned against.
#[derive(Clone, Copy, Debug, PartialEq, Eq, Structural)]
pub enum UiAnchor {
    TopLeft,
    TopCenter,
    TopRight,
    CenterLeft,
    Center,
    CenterRight,
    BottomLeft,
    BottomCenter,
    BottomRight,
}

/// What a UI element draws.
#[derive(Clone, Copy, Debug, PartialEq, Eq, Structural)]
pub enum UiElementKind {
    Text,
    Panel,
}

/// How keyframes of an animation channel are interpolated.
#[derive(Clone, Copy, Debug, PartialEq, Eq, Structural)]
pub enum InterpolationMode {
    Step,
    Linear,
    CubicSpline,
}

/// Which bone property an animation channel drives.
#[derive(Clone, Copy, Debug, PartialEq, Eq, Structural)]
pub enum AnimationProperty {
    Translation,
    Rotation,
    Scale,
}

} // verus!
