use vstd::prelude::*;

verus! {

/// How the pages of an area find their physical frames.
#[derive(Clone, Copy, Debug, PartialEq, Eq, Structural)]
pub enum MapType {
    /// The physical page number equals the virtual page number; no frame is owned.
    Identical,
    /// Each virtual page gets a freshly allocated frame owned by the area.
    Framed,
}

} // verus!
