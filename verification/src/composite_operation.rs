use vstd::prelude::*;

verus! {

/// The side of the square blocks of pixels that one shader workgroup handles.
pub const BLOCK_SIZE: u32 = 32;

/// The push constants of the compositing shader.
#[derive(Debug, Clone, Copy, PartialEq, Eq, Structural)]
pub struct CompositeOperationConstant {
    pub composite: u32,
    pub blend: u32,
    pub image_width: u32,
    pub image_height: u32,
}

} // verus!
