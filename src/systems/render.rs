use vstd::prelude::*;

verus! {

/// Where the map is drawn: the screen's first line holds the hit points, so the map
/// starts one line down.
pub struct RenderSystem;

impl RenderSystem {
    /// The screen cell of the map tile at `(x, y)`.
    pub fn render_xy(x: usize, y: usize) -> (r: (usize, usize))
        requires
            y < usize::MAX,
        ensures
            r == (x, (y + 1) as usize),
    {
        (x, y + 1)
    }
}

} // verus!
