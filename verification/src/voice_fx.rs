//! Voice-effect selection. The effect travels between the GUI and the audio
//! thread as a plain byte.
use vstd::prelude::*;

verus! {

/// Which effect to apply.
#[derive(Debug, Clone, Copy, PartialEq, Eq, Structural)]
pub enum Effect {
    /// No effect: the voice passes through unchanged.
    Off,
    /// Pitch down ~5 semitones: big/deep voice.
    Deep,
    /// Pitch up ~6 semitones: chipmunk.
    Chipmunk,
    /// Ring modulation: classic robot.
    Robot,
}

/// The byte that stands for an effect.
pub open spec fn effect_value(e: Effect) -> u8 {
    match e {
        Effect::Off => 0,
        Effect::Deep => 1,
        Effect::Chipmunk => 2,
        Effect::Robot => 3,
    }
}

/// The effect a byte stands for; unknown bytes mean no effect.
pub open spec fn effect_of(v: u8) -> Effect {
    if v == 1 {
        Effect::Deep
    } else if v == 2 {
        Effect::Chipmunk
    } else if v == 3 {
        Effect::Robot
    } else {
        Effect::Off
    }
}

impl Effect {
    /// The effect a byte stands for; unknown bytes mean no effect.
    pub fn from_u8(v: u8) -> (e: Self)
        ensures
            e == effect_of(v),
    {
        match v {
            1 => Effect::Deep,
            2 => Effect::Chipmunk,
            3 => Effect::Robot,
            _ => Effect::Off,
        }
    }

    /// The byte that stands for this effect.
    pub fn to_u8(self) -> (v: u8)
        ensures
            v == effect_value(self),
    {
        match self {
            Effect::Off => 0,
            Effect::Deep => 1,
            Effect::Chipmunk => 2,
            Effect::Robot => 3,
        }
    }
}

/// An effect survives the trip through its byte, and a byte survives the trip
/// through its effect exactly when it names one.
pub proof fn law_effect_byte_roundtrip(e: Effect, v: u8)
    ensures
        effect_of(effect_value(e)) == e,
        effect_value(effect_of(v)) == v <==> v <= 3,
{
}

} // verus!
