use vstd::prelude::*;

verus! {

/// A change of one input of a device, named by the unique id of the input.
#[derive(Debug, Clone, Copy, PartialEq, Eq, Structural)]
pub enum Input {
    /// The digital input went from released to pressed.
    ButtonDown(u16),
    /// The digital input went from pressed to released.
    ButtonUp(u16),
    /// The analog input changed: its new output value, then its old one, each as the bit
    /// pattern of a single precision number.
    Axis(u16, u32, u32),
}

} // verus!
