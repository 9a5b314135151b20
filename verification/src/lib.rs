//! An emulator of a historical rotor cipher machine, together with a
//! cycle-structure cryptanalysis that recovers the rotor starting position
//! from intercepted doubled key indicators.

pub mod analysis;
pub mod machine;
pub mod math;
pub mod plug_board;
pub mod reflector;
pub mod rotator;
pub mod utils;

pub use crate::machine::Enigma;
pub use crate::plug_board::InvalidPlugBoardPermutationError;
pub use crate::plug_board::PlugBoard;
pub use crate::reflector::InvalidReflectorPermutationError;
pub use crate::reflector::Reflector;
pub use crate::rotator::InvalidRotatorPermutationError;
pub use crate::rotator::Rotator;
pub use crate::rotator::RotatorGroup;
pub use crate::utils::Rune;
pub use crate::utils::RuneOutOfRangeError;
