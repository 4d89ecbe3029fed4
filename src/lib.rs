//! A scene graph kept as an arena of nodes, the traversal plans that a frame
//! executes over it, and the input state shared between the event side and
//! the frame loop.

pub mod scene;
pub mod traverse;
pub mod input;
pub mod control;
pub mod assembly;
