use dusk::dictation::{
    AppSettings, DictationError, DictationManager, DictationState, ModelSize, SttBackendChoice,
    DICTATION_ERROR, DICTATION_STATE_CHANGED, TRANSCRIPTION_COMPLETE,
};

#[test]
fn default_settings_have_expected_hotkey() {
    let settings = AppSettings::default();
    assert_eq!(settings.hotkey, "Ctrl+Shift+Space");
}

#[test]
fn default_settings_use_local_backend() {
    let settings = AppSettings::default();
    assert_eq!(settings.stt_backend, SttBackendChoice::Local);
}

#[test]
fn default_settings_use_base_model() {
    let settings = AppSettings::default();
    assert_eq!(settings.local_model_size, ModelSize::Base);
}

#[test]
fn default_settings_use_english() {
    let settings = AppSettings::default();
    assert_eq!(settings.language, "en");
}

#[test]
fn default_settings_enable_auto_inject() {
    let settings = AppSettings::default();
    assert!(settings.auto_inject);
}

#[test]
fn audio_error_displays_message() {
    let err = DictationError::Audio("mic not found".into());
    assert_eq!(err.message(), "Audio error: mic not found");
}

#[test]
fn stt_error_displays_message() {
    let err = DictationError::Stt("model load failed".into());
    assert_eq!(err.message(), "STT error: model load failed");
}

#[test]
fn injection_error_displays_message() {
    let err = DictationError::Injection("keyboard unavailable".into());
    assert_eq!(err.message(), "Injection error: keyboard unavailable");
}

#[test]
fn invalid_state_transition_displays_details() {
    let err = DictationError::InvalidStateTransition {
        from: "Idle".into(),
        to: "Transcribing".into(),
    };
    assert_eq!(
        err.message(),
        "Invalid state transition: \"Idle\" -> \"Transcribing\""
    );
}

#[test]
fn event_names_are_kebab_case() {
    assert_eq!(DICTATION_STATE_CHANGED, "dictation-state-changed");
    assert_eq!(TRANSCRIPTION_COMPLETE, "transcription-complete");
    assert_eq!(DICTATION_ERROR, "dictation-error");
}

#[test]
fn new_manager_is_idle() {
    let manager = DictationManager::new();
    assert_eq!(*manager.state(), DictationState::Idle);
}

#[test]
fn full_dictation_cycle() {
    let mut manager = DictationManager::new();

    manager.on_hotkey_pressed().unwrap();
    assert_eq!(*manager.state(), DictationState::Recording);

    manager.on_hotkey_released().unwrap();
    assert_eq!(*manager.state(), DictationState::Transcribing);

    manager.on_transcription_complete().unwrap();
    assert_eq!(*manager.state(), DictationState::Idle);
}

#[test]
fn error_recovery_cycle() {
    let mut manager = DictationManager::new();
    manager.on_hotkey_pressed().unwrap();
    manager.on_hotkey_released().unwrap();

    manager.on_error();
    assert_eq!(*manager.state(), DictationState::Error);

    manager.reset().unwrap();
    assert_eq!(*manager.state(), DictationState::Idle);
}

#[test]
fn cannot_press_hotkey_while_recording() {
    let mut manager = DictationManager::new();
    manager.on_hotkey_pressed().unwrap();
    let result = manager.on_hotkey_pressed();
    assert!(result.is_err());
}

#[test]
fn cannot_release_hotkey_while_idle() {
    let mut manager = DictationManager::new();
    let result = manager.on_hotkey_released();
    assert!(result.is_err());
}

#[test]
fn cannot_complete_transcription_while_idle() {
    let mut manager = DictationManager::new();
    let result = manager.on_transcription_complete();
    assert!(result.is_err());
}

#[test]
fn cannot_reset_from_idle() {
    let mut manager = DictationManager::new();
    let result = manager.reset();
    assert!(result.is_err());
}

#[test]
fn cannot_press_hotkey_while_transcribing() {
    let mut manager = DictationManager::new();
    manager.on_hotkey_pressed().unwrap();
    manager.on_hotkey_released().unwrap();
    let result = manager.on_hotkey_pressed();
    assert!(result.is_err());
}

#[test]
fn error_from_any_state_via_on_error() {
    let mut manager = DictationManager::new();
    manager.on_error();
    assert_eq!(*manager.state(), DictationState::Error);
}

#[test]
fn state_display_format() {
    assert_eq!(DictationState::Idle.name(), "idle");
    assert_eq!(DictationState::Recording.name(), "recording");
    assert_eq!(DictationState::Transcribing.name(), "transcribing");
    assert_eq!(DictationState::Error.name(), "error");
}

#[test]
fn can_run_multiple_cycles() {
    let mut manager = DictationManager::new();
    for _ in 0..3 {
        manager.on_hotkey_pressed().unwrap();
        manager.on_hotkey_released().unwrap();
        manager.on_transcription_complete().unwrap();
    }
    assert_eq!(*manager.state(), DictationState::Idle);
}

#[test]
fn transition_error_names_the_state_it_was_in() {
    let mut manager = DictationManager::new();
    manager.on_error();
    let err = manager.on_hotkey_pressed().unwrap_err();
    assert_eq!(
        err.message(),
        "Invalid state transition: \"error\" -> \"recording\""
    );
}

#[test]
fn config_error_displays_message() {
    let err = DictationError::Config("bad hotkey".into());
    assert_eq!(err.message(), "Config error: bad hotkey");
}

#[test]
fn hotkey_error_displays_message() {
    let err = DictationError::Hotkey("already registered".into());
    assert_eq!(err.message(), "Hotkey error: already registered");
}
