use vstd::prelude::*;

verus! {

/// Why a device or profile definition is refused.
#[derive(Debug, Clone, Copy, PartialEq, Eq, Structural)]
pub enum ConfigErrorKind {
    /// A byte definition lists more than eight names.
    TooManyNames,
    /// The definitions hold more inputs than there are unique ids.
    TooManyInputs,
    /// An input reads a byte beyond the device's report.
    IndexOutsidePacket,
    /// A digital input has no bit to test.
    EmptyMask,
    /// Two device definitions share one signature.
    DuplicateDevice,
    /// A profile names a device input that no device definition declares.
    UnknownInput,
    /// The input that a profile names has a unique id beyond the output table.
    InputOutsideTable,
    /// A numbered button of a profile has a number above 255.
    ButtonNumberTooLarge,
    /// An axis of a profile names fewer than two keys.
    MissingAxisKeys,
}

/// A malformed definition: what is wrong, and the position of the offending entry in the list
/// of definitions.
#[derive(Debug, Clone, Copy, PartialEq, Eq, Structural)]
pub struct ConfigError {
    pub kind: ConfigErrorKind,
    pub position: usize,
}

} // verus!
