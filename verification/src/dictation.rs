//! The dictation subsystem's decision core: its configuration, its error
//! type, the event payloads it emits, and the hotkey-driven state machine
//! that rules when recording, transcription and recovery may happen.

use vstd::prelude::*;

verus! {

use vstd::string::StringExecFns;

/// The event emitted when the dictation state changes.
pub const DICTATION_STATE_CHANGED: &'static str = "dictation-state-changed";

/// The event emitted when a transcription is ready.
pub const TRANSCRIPTION_COMPLETE: &'static str = "transcription-complete";

/// The event emitted when dictation fails.
pub const DICTATION_ERROR: &'static str = "dictation-error";

/// Whether the microphone capture is running.
#[derive(Debug, Clone, PartialEq, Eq, Structural)]
pub enum RecorderState {
    Idle,
    Recording,
}

/// Which speech-to-text engine the settings ask for.
#[derive(Debug, Clone, PartialEq, Eq, Structural)]
pub enum SttBackendChoice {
    Local,
    Cloud,
}

/// The size of the local speech model.
#[derive(Debug, Clone, PartialEq, Eq, Structural)]
pub enum ModelSize {
    Tiny,
    Base,
    Small,
    Medium,
    Large,
}

/// Which kind of engine a running backend is.
#[derive(Debug, Clone, PartialEq, Eq, Structural)]
pub enum SttBackendKind {
    Local,
    Cloud,
}

/// What a finished transcription hands back: the text, the language the
/// engine believes it heard, and how long the work took.
#[derive(Debug, Clone)]
pub struct TranscriptionResult {
    pub text: String,
    pub language: Option<String>,
    pub duration_ms: u64,
}

/// The payload of a state-change event.
#[derive(Debug, Clone)]
pub struct DictationStatePayload {
    pub state: String,
    pub message: Option<String>,
}

/// The payload of a finished-transcription event.
#[derive(Debug, Clone)]
pub struct TranscriptionPayload {
    pub text: String,
    pub timestamp: String,
}

/// The payload of an error event.
#[derive(Debug, Clone)]
pub struct ErrorPayload {
    pub message: String,
}

/// The application's stored settings.
#[derive(Debug, Clone, PartialEq)]
pub struct AppSettings {
    pub hotkey: String,
    pub stt_backend: SttBackendChoice,
    pub local_model_path: String,
    pub local_model_size: ModelSize,
    pub cloud_provider: String,
    pub cloud_api_key: String,
    pub cloud_model: String,
    pub language: String,
    pub auto_inject: bool,
    pub notifications: bool,
    pub start_minimized: bool,
    pub launch_at_startup: bool,
}

impl Default for AppSettings {
    /// The settings a fresh installation starts from: local transcription
    /// with the base English model, triggered by Ctrl+Shift+Space, typing
    /// the result into the focused window.
    fn default() -> (r: AppSettings)
        ensures
            r.hotkey@ == "Ctrl+Shift+Space"@,
            r.stt_backend == SttBackendChoice::Local,
            r.local_model_path@.len() == 0,
            r.local_model_size == ModelSize::Base,
            r.cloud_provider@ == "openai"@,
            r.cloud_api_key@.len() == 0,
            r.cloud_model@ == "whisper-1"@,
            r.language@ == "en"@,
            r.auto_inject,
            r.notifications,
            !r.start_minimized,
            !r.launch_at_startup,
    {
        AppSettings {
            hotkey: "Ctrl+Shift+Space".to_owned(),
            stt_backend: SttBackendChoice::Local,
            local_model_path: String::new(),
            local_model_size: ModelSize::Base,
            cloud_provider: "openai".to_owned(),
            cloud_api_key: String::new(),
            cloud_model: "whisper-1".to_owned(),
            language: "en".to_owned(),
            auto_inject: true,
            notifications: true,
            start_minimized: false,
            launch_at_startup: false,
        }
    }
}

/// What the dictation pipeline can fail on.
#[derive(Debug)]
pub enum DictationError {
    Audio(String),
    Stt(String),
    Injection(String),
    Config(String),
    Hotkey(String),
    InvalidStateTransition { from: String, to: String },
}

impl DictationError {
    /// The human-readable account of the error.
    pub fn message(&self) -> (r: String)
        ensures
            self matches DictationError::Audio(msg) ==> r@ == "Audio error: "@ + msg@,
            self matches DictationError::Stt(msg) ==> r@ == "STT error: "@ + msg@,
            self matches DictationError::Injection(msg) ==> r@ == "Injection error: "@ + msg@,
            self matches DictationError::Config(msg) ==> r@ == "Config error: "@ + msg@,
            self matches DictationError::Hotkey(msg) ==> r@ == "Hotkey error: "@ + msg@,
            self matches DictationError::InvalidStateTransition { from, to } ==> r@
                == "Invalid state transition: \""@ + from@ + "\" -> \""@ + to@ + "\""@,
    {
        match self {
            DictationError::Audio(msg) => {
                let mut r = String::from_str("Audio error: ");
                r.append(msg.as_str());
                r
            },
            DictationError::Stt(msg) => {
                let mut r = String::from_str("STT error: ");
                r.append(msg.as_str());
                r
            },
            DictationError::Injection(msg) => {
                let mut r = String::from_str("Injection error: ");
                r.append(msg.as_str());
                r
            },
            DictationError::Config(msg) => {
                let mut r = String::from_str("Config error: ");
                r.append(msg.as_str());
                r
            },
            DictationError::Hotkey(msg) => {
                let mut r = String::from_str("Hotkey error: ");
                r.append(msg.as_str());
                r
            },
            DictationError::InvalidStateTransition { from, to } => {
                let mut r = String::from_str("Invalid state transition: \"");
                r.append(from.as_str());
                r.append("\" -> \"");
                r.append(to.as_str());
                r.append("\"");
                r
            },
        }
    }
}

/// Where the dictation session stands.
#[derive(Debug, Clone, PartialEq, Eq, Structural)]
pub enum DictationState {
    Idle,
    Recording,
    Transcribing,
    Error,
}

/// The lowercase name of a dictation state.
pub open spec fn spec_state_name(s: DictationState) -> Seq<char> {
    match s {
        DictationState::Idle => "idle"@,
        DictationState::Recording => "recording"@,
        DictationState::Transcribing => "transcribing"@,
        DictationState::Error => "error"@,
    }
}

impl DictationState {
    /// The state's lowercase name.
    pub fn name(&self) -> (r: String)
        ensures
            r@ == spec_state_name(*self),
    {
        match self {
            DictationState::Idle => "idle".to_owned(),
            DictationState::Recording => "recording".to_owned(),
            DictationState::Transcribing => "transcribing".to_owned(),
            DictationState::Error => "error".to_owned(),
        }
    }
}

/// The hotkey-driven state machine: press to record, release to
/// transcribe, completion back to idle; any failure parks the machine in
/// the error state until it is reset.
pub struct DictationManager {
    state: DictationState,
}

impl DictationManager {
    /// Where the machine stands now.
    pub closed spec fn spec_state(self) -> DictationState {
        self.state
    }

    /// A fresh machine, idle.
    pub fn new() -> (r: DictationManager)
        ensures
            r.spec_state() == DictationState::Idle,
    {
        DictationManager { state: DictationState::Idle }
    }

    /// The current state.
    pub fn state(&self) -> (r: &DictationState)
        ensures
            *r == self.spec_state(),
    {
        &self.state
    }

    /// Pressing the hotkey starts recording, and is allowed only when the
    /// machine is idle; any other state is left unchanged and reported.
    pub fn on_hotkey_pressed(&mut self) -> (r: Result<(), DictationError>)
        ensures
            old(self).spec_state() == DictationState::Idle ==> final(self).spec_state()
                == DictationState::Recording && r is Ok,
            old(self).spec_state() != DictationState::Idle ==> final(self).spec_state() == old(
                self,
            ).spec_state() && (r matches Err(e) && e matches DictationError::InvalidStateTransition {
                from,
                to,
            } && from@ == spec_state_name(old(self).spec_state()) && to@ == "recording"@),
    {
        match self.state {
            DictationState::Idle => {
                self.state = DictationState::Recording;
                Ok(())
            },
            _ => Err(
                DictationError::InvalidStateTransition {
                    from: self.state.name(),
                    to: "recording".to_owned(),
                },
            ),
        }
    }

    /// Releasing the hotkey hands the recording to transcription, and is
    /// allowed only while recording; any other state is left unchanged and
    /// reported.
    pub fn on_hotkey_released(&mut self) -> (r: Result<(), DictationError>)
        ensures
            old(self).spec_state() == DictationState::Recording ==> final(self).spec_state()
                == DictationState::Transcribing && r is Ok,
            old(self).spec_state() != DictationState::Recording ==> final(self).spec_state()
                == old(self).spec_state() && (r matches Err(e)
                && e matches DictationError::InvalidStateTransition { from, to } && from@
                == spec_state_name(old(self).spec_state()) && to@ == "transcribing"@),
    {
        match self.state {
            DictationState::Recording => {
                self.state = DictationState::Transcribing;
                Ok(())
            },
            _ => Err(
                DictationError::InvalidStateTransition {
                    from: self.state.name(),
                    to: "transcribing".to_owned(),
                },
            ),
        }
    }

    /// A finished transcription puts the machine back to idle, and is
    /// expected only while transcribing; any other state is left unchanged
    /// and reported.
    pub fn on_transcription_complete(&mut self) -> (r: Result<(), DictationError>)
        ensures
            old(self).spec_state() == DictationState::Transcribing ==> final(self).spec_state()
                == DictationState::Idle && r is Ok,
            old(self).spec_state() != DictationState::Transcribing ==> final(self).spec_state()
                == old(self).spec_state() && (r matches Err(e)
                && e matches DictationError::InvalidStateTransition { from, to } && from@
                == spec_state_name(old(self).spec_state()) && to@ == "idle"@),
    {
        match self.state {
            DictationState::Transcribing => {
                self.state = DictationState::Idle;
                Ok(())
            },
            _ => Err(
                DictationError::InvalidStateTransition {
                    from: self.state.name(),
                    to: "idle".to_owned(),
                },
            ),
        }
    }

    /// A failure parks the machine in the error state, from anywhere.
    pub fn on_error(&mut self)
        ensures
            final(self).spec_state() == DictationState::Error,
    {
        self.state = DictationState::Error;
    }

    /// Resetting leaves the error state for idle, and is allowed only
    /// there; any other state is left unchanged and reported.
    pub fn reset(&mut self) -> (r: Result<(), DictationError>)
        ensures
            old(self).spec_state() == DictationState::Error ==> final(self).spec_state()
                == DictationState::Idle && r is Ok,
            old(self).spec_state() != DictationState::Error ==> final(self).spec_state() == old(
                self,
            ).spec_state() && (r matches Err(e) && e matches DictationError::InvalidStateTransition {
                from,
                to,
            } && from@ == spec_state_name(old(self).spec_state()) && to@ == "idle"@),
    {
        match self.state {
            DictationState::Error => {
                self.state = DictationState::Idle;
                Ok(())
            },
            _ => Err(
                DictationError::InvalidStateTransition {
                    from: self.state.name(),
                    to: "idle".to_owned(),
                },
            ),
        }
    }
}

impl Default for DictationManager {
    /// The default machine is a fresh, idle one.
    fn default() -> (r: DictationManager)
        ensures
            r.spec_state() == DictationState::Idle,
    {
        DictationManager::new()
    }
}

} // verus!
