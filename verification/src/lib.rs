//! Verified core of a generative-music library driven by Lotka-Volterra
//! population dynamics.
//!
//! The numeric simulation works on floating-point populations; this crate
//! holds the discrete decisions around it: shaping the interaction matrix,
//! classifying the stability of a fixed point, naming fusion genres, turning
//! population data into MIDI events and chords, and rendering them as text.

pub mod dynamics;
pub mod equilibrium;
pub mod error;
pub mod genre;
pub mod midi;
pub mod text;

pub use equilibrium::{EigenSign, GenreNaming, Stability};
pub use error::Error;
pub use midi::{MidiEvent, NoteGroup};
