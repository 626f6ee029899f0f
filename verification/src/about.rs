//! State of the help panel: a single open/closed flag. Drawing the panel is
//! the caller's affair; the library only tracks whether it should be shown.

use vstd::prelude::*;

verus! {

pub struct About {
    pub open: bool,
}

impl About {
    pub fn new() -> (r: Self)
        ensures
            !r.open,
    {
        About { open: false }
    }

    pub fn open(&mut self)
        ensures
            final(self).open,
    {
        self.open = true;
    }
}

} // verus!
