//! A reciprocal rotor cipher over a finite alphabet of indexed symbols.
//!
//! The engine composes a plugboard, a stack of stepping rotors and a
//! reflector into one self-inverse substitution: encoding and decoding are
//! the same operation under matching rotor state.

pub mod character_set;
pub mod cipher;
pub mod enigmatic;
pub mod machine;
pub mod plugboard;
pub mod reflector;
pub mod rotor;
pub mod rotor_set;
