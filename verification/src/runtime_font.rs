//! Runtime glyph rasterization requests from the guest. Rasterizing from a
//! full CJK font exhausts the device's memory, so requests are accepted and
//! nothing is rasterized until a subset font ships; the host warns once.

use vstd::prelude::*;

verus! {

/// Runtime font state: whether the host has warned that rasterization is off.
pub struct RuntimeFonts {
    warned: bool,
}

impl RuntimeFonts {
    /// Nothing warned yet.
    pub fn new() -> (r: RuntimeFonts)
        ensures
            !r.warned(),
    {
        RuntimeFonts { warned: false }
    }

    /// The host has been told that rasterization is off.
    pub closed spec fn warned(&self) -> bool {
        self.warned
    }

    /// Whether the warning was issued.
    pub fn has_warned(&self) -> (r: bool)
        ensures
            r == self.warned(),
    {
        self.warned
    }

    /// Ask for the glyphs of `text`. Nothing is rasterized, so the number
    /// of glyphs added is 0; the first non-empty request is the one the host
    /// warns on.
    pub fn ensure_chars(&mut self, text: &str) -> (r: usize)
        ensures
            r == 0,
            final(self).warned() == (old(self).warned() || text@.len() > 0),
    {
        if text.is_empty() {
            proof {
                assert(text@.len() == 0);
            }
            return 0;
        }
        if !self.warned {
            self.warned = true;
        }
        0
    }
}

} // verus!
