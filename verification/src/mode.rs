//! The two kinds of hologram.

use vstd::prelude::*;

verus! {

/// Whether the view of a hologram changes in one direction or in two.
#[derive(Clone, Copy, Debug, PartialEq, Eq, Structural)]
pub enum ParallaxMode {
    Half,
    Full,
}

/// The number by which the shader knows a mode.
pub open spec fn mode_code(mode: ParallaxMode) -> u32 {
    match mode {
        ParallaxMode::Half => 0,
        ParallaxMode::Full => 1,
    }
}

impl ParallaxMode {
    /// The number by which the shader knows this mode.
    pub fn as_u32(self) -> (code: u32)
        ensures
            code == mode_code(self),
    {
        match self {
            ParallaxMode::Half => 0,
            ParallaxMode::Full => 1,
        }
    }
}

/// The shader knows half parallax as 0 and full parallax as 1.
pub proof fn law_mode_codes(mode: ParallaxMode)
    ensures
        mode_code(mode) == 0 <==> mode is Half,
        mode_code(mode) == 1 <==> mode is Full,
{
}

/// The shader can tell the modes apart.
pub proof fn law_mode_codes_differ(a: ParallaxMode, b: ParallaxMode)
    ensures
        mode_code(a) == mode_code(b) <==> a == b,
{
}

} // verus!
