//! The decisions made around a speech engine: when its voice has to be
//! switched, what it is left with after a switch, and what its answers
//! mean.

use crate::request::{has_nul, DEFAULT_VOICE};
use vstd::prelude::*;
use vstd::utf8::encode_utf8;

verus! {

/// What the engine answered to a call.
#[derive(Clone, Copy, Debug, PartialEq, Eq, Structural)]
pub enum EngineStatus {
    /// The call went through.
    Done,
    /// The engine's buffer is full.
    BufferFull,
    /// The engine failed inside.
    InternalError,
    /// The engine does not have what was asked for.
    NotFound,
    /// Any other answer.
    Other,
}

/// Why nothing was spoken.
#[derive(Clone, Copy, Debug, PartialEq, Eq, Structural)]
pub enum SpeakError {
    /// The voice name holds a zero byte.
    InvalidLanguageName,
    /// The engine has no voice of that name.
    UnknownLanguage,
    /// The text holds a zero byte.
    MalformedInput,
    /// The engine's buffer is full.
    BufferFull,
    /// The engine failed inside.
    InternalError,
    /// The engine found no audio data.
    AudioNotFound,
    /// The engine gave an answer that stands for no known failure.
    Unknown,
}

impl SpeakError {
    /// The sentence that describes the failure.
    pub fn message(&self) -> (text: &'static str)
        ensures
            text@ == match self {
                SpeakError::InvalidLanguageName => "Invalid language name"@,
                SpeakError::UnknownLanguage => "Unknown language"@,
                SpeakError::MalformedInput => "Malformed input string"@,
                SpeakError::BufferFull => "Buffer is full"@,
                SpeakError::InternalError => "Internal error"@,
                SpeakError::AudioNotFound => "Audio data not found"@,
                SpeakError::Unknown => "An unknown error occurred"@,
            },
    {
        match self {
            SpeakError::InvalidLanguageName => "Invalid language name",
            SpeakError::UnknownLanguage => "Unknown language",
            SpeakError::MalformedInput => "Malformed input string",
            SpeakError::BufferFull => "Buffer is full",
            SpeakError::InternalError => "Internal error",
            SpeakError::AudioNotFound => "Audio data not found",
            SpeakError::Unknown => "An unknown error occurred",
        }
    }
}

/// What has to happen before the engine can speak in a voice.
#[derive(Clone, Copy, Debug, PartialEq, Eq, Structural)]
pub enum VoicePlan {
    /// The engine is set to that voice already.
    Keep,
    /// The engine has to be switched to that voice.
    Switch,
}

/// What is known of the engine: the voice it is set to, if any.
#[derive(Debug)]
pub struct Speak {
    voice: Option<String>,
}

impl Speak {
    /// The voice the engine is set to; none after a switch that failed.
    pub closed spec fn voice(&self) -> Option<Seq<char>> {
        match self.voice {
            Some(voice) => Some(voice@),
            None => None,
        }
    }

    /// The state of an engine that has just been set up with the default
    /// voice.
    pub fn init() -> (speak: Self)
        ensures
            speak.voice() == Some(DEFAULT_VOICE@),
    {
        Speak { voice: Some(DEFAULT_VOICE.to_owned()) }
    }

    /// What has to happen before the engine can speak in `voice`: nothing
    /// where it is set to that voice, and a switch otherwise. A name that
    /// would need a switch and holds a zero byte cannot be handed to the
    /// engine.
    pub fn plan_voice(&self, voice: &str) -> (plan: Result<VoicePlan, SpeakError>)
        ensures
            plan == if self.voice() == Some(voice@) {
                Ok::<VoicePlan, SpeakError>(VoicePlan::Keep)
            } else if encode_utf8(voice@).contains(0u8) {
                Err(SpeakError::InvalidLanguageName)
            } else {
                Ok(VoicePlan::Switch)
            },
    {
        let wanted = voice.to_owned();
        let set = match &self.voice {
            Some(current) => *current == wanted,
            None => false,
        };
        if set {
            Ok(VoicePlan::Keep)
        } else if has_nul(voice.as_bytes()) {
            Err(SpeakError::InvalidLanguageName)
        } else {
            Ok(VoicePlan::Switch)
        }
    }

    /// Whether `text` can be handed to the engine: it must hold no zero
    /// byte.
    pub fn check_text(text: &str) -> (outcome: Result<(), SpeakError>)
        ensures
            outcome == if encode_utf8(text@).contains(0u8) {
                Err::<(), SpeakError>(SpeakError::MalformedInput)
            } else {
                Ok(())
            },
    {
        if has_nul(text.as_bytes()) {
            Err(SpeakError::MalformedInput)
        } else {
            Ok(())
        }
    }

    /// Records what the engine answered when asked to switch to `voice`:
    /// it is set to that voice where the switch went through, and to no
    /// known voice where it did not.
    pub fn set_voice(&mut self, voice: &str, status: EngineStatus) -> (outcome: Result<
        (),
        SpeakError,
    >)
        ensures
            final(self).voice() == if status == EngineStatus::Done {
                Some(voice@)
            } else {
                None
            },
            outcome == match status {
                EngineStatus::Done => Ok::<(), SpeakError>(()),
                EngineStatus::NotFound => Err(SpeakError::UnknownLanguage),
                _ => Err(SpeakError::Unknown),
            },
    {
        match status {
            EngineStatus::Done => {
                self.voice = Some(voice.to_owned());
                Ok(())
            },
            EngineStatus::NotFound => {
                self.voice = None;
                Err(SpeakError::UnknownLanguage)
            },
            _ => {
                self.voice = None;
                Err(SpeakError::Unknown)
            },
        }
    }

    /// What a synthesis that the engine answered with `status` has
    /// given: the samples it wrote where it went through, and the failure
    /// its answer stands for where it did not.
    pub fn speak(status: EngineStatus, samples: Vec<i16>) -> (outcome: Result<Vec<i16>, SpeakError>)
        ensures
            outcome == match status {
                EngineStatus::Done => Ok::<Vec<i16>, SpeakError>(samples),
                EngineStatus::BufferFull => Err(SpeakError::BufferFull),
                EngineStatus::InternalError => Err(SpeakError::InternalError),
                EngineStatus::NotFound => Err(SpeakError::AudioNotFound),
                EngineStatus::Other => Err(SpeakError::Unknown),
            },
    {
        match status {
            EngineStatus::Done => Ok(samples),
            EngineStatus::BufferFull => Err(SpeakError::BufferFull),
            EngineStatus::InternalError => Err(SpeakError::InternalError),
            EngineStatus::NotFound => Err(SpeakError::AudioNotFound),
            EngineStatus::Other => Err(SpeakError::Unknown),
        }
    }
}

} // verus!
