use vstd::prelude::*;

verus! {

/// What draws a view.
pub trait Renderer {
    /// Draws the background.
    fn background(&self);
}

/// The alignment, in bytes, that uniform buffers ask for.
pub const UNIFORM_ALIGNMENT: usize = 256;

/// Rounds the size of the uniform `U` up to the next multiple of
/// `UNIFORM_ALIGNMENT`.
pub fn aligned_size_of_uniform<U: Sized>() -> (padded: u64)
    requires
        vstd::layout::size_of::<U>() + UNIFORM_ALIGNMENT - 1 <= usize::MAX,
    ensures
        padded % 256 == 0,
        vstd::layout::size_of::<U>() <= padded < vstd::layout::size_of::<U>() + 256,
{
    let uniform_size = core::mem::size_of::<U>();
    let blocks = (uniform_size + (UNIFORM_ALIGNMENT - 1)) / UNIFORM_ALIGNMENT;
    assert(blocks * 256 <= uniform_size + 255);
    let uniform_padded_size = blocks * UNIFORM_ALIGNMENT;
    uniform_padded_size as u64
}

} // verus!
