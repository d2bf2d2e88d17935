//! Opaque resource handles.
use vstd::prelude::*;

verus! {

/// Handle to a loaded texture / image.
#[derive(Debug, Clone, Copy, PartialEq, Eq, Hash, Structural)]
pub struct TextureId(pub u32);

/// Handle to a loaded sound / audio buffer.
#[derive(Debug, Clone, Copy, PartialEq, Eq, Hash, Structural)]
pub struct SoundId(pub u32);

/// Handle to a loaded font.
#[derive(Debug, Clone, Copy, PartialEq, Eq, Hash, Structural)]
pub struct FontId(pub u32);

} // verus!
