use tuners::backend::{AudioBackend, AudioSource};
use tuners::session::{record, step, SessionAction, SessionEvent, SessionState};
use tuners::visualizer::{get_ui_type, UiType, Visualizer, MOBILE_WIDTH};

#[test]
fn start_acquires_then_runs() {
    let (state, action) = step(SessionState::Stopped, SessionEvent::StartRequested);
    assert_eq!(state, SessionState::Acquiring);
    assert_eq!(action, SessionAction::Acquire);
    let (state, action) = step(state, SessionEvent::Acquired);
    assert_eq!(state, SessionState::Running);
    assert_eq!(action, SessionAction::Start);
}

#[test]
fn failure_leaves_the_session_stopped() {
    assert_eq!(
        step(SessionState::Acquiring, SessionEvent::Failed),
        (SessionState::Stopped, SessionAction::TearDown)
    );
    assert_eq!(
        step(SessionState::Running, SessionEvent::Failed),
        (SessionState::Stopped, SessionAction::TearDown)
    );
    assert_eq!(
        step(SessionState::Stopped, SessionEvent::Failed),
        (SessionState::Stopped, SessionAction::Nothing)
    );
}

#[test]
fn stop_is_idempotent() {
    for &state in [SessionState::Stopped, SessionState::Acquiring, SessionState::Running].iter() {
        let (stopped, _) = step(state, SessionEvent::StopRequested);
        assert_eq!(stopped, SessionState::Stopped);
        assert_eq!(
            step(stopped, SessionEvent::StopRequested),
            (SessionState::Stopped, SessionAction::Nothing)
        );
    }
    assert_eq!(
        step(SessionState::Running, SessionEvent::StopRequested),
        (SessionState::Stopped, SessionAction::TearDown)
    );
}

#[test]
fn start_is_idempotent() {
    assert_eq!(
        step(SessionState::Acquiring, SessionEvent::StartRequested),
        (SessionState::Acquiring, SessionAction::Nothing)
    );
    assert_eq!(
        step(SessionState::Running, SessionEvent::StartRequested),
        (SessionState::Running, SessionAction::Nothing)
    );
}

#[test]
fn late_reports_of_the_backend_are_ignored() {
    assert_eq!(
        step(SessionState::Stopped, SessionEvent::Acquired),
        (SessionState::Stopped, SessionAction::Nothing)
    );
    assert_eq!(
        step(SessionState::Running, SessionEvent::Acquired),
        (SessionState::Running, SessionAction::Nothing)
    );
}

#[test]
fn history_grows_up_to_the_width() {
    let mut history: Vec<u16> = Vec::new();
    record(&mut history, 1, 3);
    record(&mut history, 2, 3);
    record(&mut history, 3, 3);
    assert_eq!(history, vec![1, 2, 3]);
    record(&mut history, 4, 3);
    assert_eq!(history, vec![2, 3, 4]);
}

#[test]
fn history_on_a_narrowed_panel_loses_one_entry_per_frame() {
    let mut history: Vec<u16> = vec![1, 2, 3, 4, 5];
    record(&mut history, 6, 2);
    assert_eq!(history, vec![2, 3, 4, 5, 6]);
    record(&mut history, 7, 0);
    assert_eq!(history, vec![3, 4, 5, 6, 7]);
}

#[test]
fn only_the_frequency_view_needs_the_pitch() {
    assert!(Visualizer::Freq.needs_pitch());
    assert!(!Visualizer::RMS.needs_pitch());
    assert!(!Visualizer::WaveShape.needs_pitch());
}

#[test]
fn narrow_or_mobile_browsers_get_the_mobile_layout() {
    assert_eq!(UiType::detect(true, 1920), UiType::Mobile);
    assert_eq!(UiType::detect(false, MOBILE_WIDTH - 1), UiType::Mobile);
    assert_eq!(UiType::detect(false, MOBILE_WIDTH), UiType::Desktop);
    assert_eq!(UiType::detect(false, 1024), UiType::Desktop);
}

struct Tone {
    running: bool,
}

impl AudioBackend for Tone {
    fn start(&mut self) -> Result<(), String> {
        self.running = true;
        Ok(())
    }

    fn stop(&mut self) {
        self.running = false;
    }
}

impl AudioSource for Tone {
    fn sample_rate(&self) -> u32 {
        48000
    }

    fn channels(&self) -> usize {
        1
    }

    fn start(&mut self) {
        self.running = true;
    }

    fn stop(&mut self) {
        self.running = false;
    }
}

#[test]
fn backends_start_and_stop() {
    let mut tone = Tone { running: false };
    assert_eq!(AudioBackend::start(&mut tone), Ok(()));
    assert!(tone.running);
    AudioBackend::stop(&mut tone);
    AudioBackend::stop(&mut tone);
    assert!(!tone.running);
    assert_eq!(tone.sample_rate(), 48000);
    assert_eq!(tone.channels(), 1);
    AudioSource::start(&mut tone);
    assert!(tone.running);
    AudioSource::stop(&mut tone);
    assert!(!tone.running);
}

#[test]
fn user_agent_decides_the_layout_whatever_its_case() {
    assert_eq!(
        get_ui_type("Mozilla/5.0 (Linux; Android 13) MOBILE Safari", 1920),
        UiType::Mobile
    );
    assert_eq!(
        get_ui_type("Mozilla/5.0 (iPhone) AppleWebKit Mobile/15E148", 1920),
        UiType::Mobile
    );
    assert_eq!(get_ui_type("Mozilla/5.0 (X11; Linux x86_64) Firefox", 1920), UiType::Desktop);
    assert_eq!(get_ui_type("Mozilla/5.0 (X11; Linux x86_64) Firefox", 799), UiType::Mobile);
    assert_eq!(get_ui_type("Mozilla/5.0 (X11; Linux x86_64) Firefox", 800), UiType::Desktop);
    assert_eq!(get_ui_type("mob i", 1024), UiType::Desktop);
    assert_eq!(get_ui_type("", 1024), UiType::Desktop);
}
