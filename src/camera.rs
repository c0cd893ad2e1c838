use vstd::prelude::*;

verus! {

/// Directions in which the viewer can move.
#[derive(Clone, Copy, Debug, PartialEq, Eq, Structural)]
pub enum CameraMovementDir {
    Forward,
    Backward,
    Upward,
    Downward,
    Left,
    Right,
}

/// Directions in which the viewer can turn.
#[derive(Clone, Copy, Debug, PartialEq, Eq, Structural)]
pub enum CameraRotationDir {
    Upward,
    Downward,
    Left,
    Right,
}

} // verus!
