use bongo_modulator::control::{clamp_rate, rate_from_fps, MAX_RATE, MIN_RATE};
use bongo_modulator::{ControlMessage, ControlState, Mode, ServerAction};

#[test]
fn set_rate_above_max_reads_max() {
    let mut s = ControlState::new(5000, false);
    assert_eq!(s.handle(ControlMessage::SetFps(45)), ServerAction::Done);
    assert_eq!(s.read_rate(), 30_000);
}

#[test]
fn set_rate_below_min_reads_min() {
    let mut s = ControlState::new(5000, false);
    s.set_rate(0);
    assert_eq!(s.read_rate(), MIN_RATE);
}

#[test]
fn set_rate_in_range_is_kept() {
    for fps in 1..=30u32 {
        let mut s = ControlState::new(5000, true);
        s.set_rate(fps);
        assert_eq!(s.read_rate(), fps * 1000);
        assert_eq!(s.mode(), Mode::Manual);
    }
}

#[test]
fn set_rate_huge_value() {
    let mut s = ControlState::new(5000, false);
    s.set_rate(u32::MAX);
    assert_eq!(s.read_rate(), MAX_RATE);
}

#[test]
fn clamp_exact_values() {
    assert_eq!(clamp_rate(0), 500);
    assert_eq!(clamp_rate(499), 500);
    assert_eq!(clamp_rate(500), 500);
    assert_eq!(clamp_rate(12_345), 12_345);
    assert_eq!(clamp_rate(30_001), 30_000);
    assert_eq!(clamp_rate(u64::MAX), 30_000);
    assert_eq!(rate_from_fps(7), 7000);
}

#[test]
fn startup_rate_is_clamped() {
    let s = ControlState::new(100_000, false);
    assert_eq!(s.read_rate(), 30_000);
    assert_eq!(s.mode(), Mode::Manual);
    assert!(!s.controller_active());
}

#[test]
fn enable_twice_starts_one_controller() {
    let mut s = ControlState::new(5000, false);
    assert_eq!(s.handle(ControlMessage::EnableAi), ServerAction::StartController);
    assert_eq!(s.handle(ControlMessage::EnableAi), ServerAction::Done);
    assert!(s.controller_active());
    assert_eq!(s.mode(), Mode::Adaptive);
}

#[test]
fn startup_in_adaptive_mode_claims_once() {
    let mut s = ControlState::new(5000, true);
    assert!(s.claim_controller());
    assert!(!s.claim_controller());
    assert!(!s.enable_adaptive());
}

#[test]
fn claim_refused_in_manual_mode() {
    let mut s = ControlState::new(5000, false);
    assert!(!s.claim_controller());
    assert!(!s.controller_active());
}

#[test]
fn publish_only_in_adaptive_mode() {
    let mut s = ControlState::new(5000, false);
    assert!(!s.publish_adaptive(12_000));
    assert_eq!(s.read_rate(), 5000);
    s.enable_adaptive();
    assert!(s.publish_adaptive(12_000));
    assert_eq!(s.read_rate(), 12_000);
    assert!(s.publish_adaptive(90_000));
    assert_eq!(s.read_rate(), 30_000);
    s.set_rate(3);
    assert!(!s.publish_adaptive(20_000));
    assert_eq!(s.read_rate(), 3000);
}

#[test]
fn controller_exit_returns_to_manual() {
    let mut s = ControlState::new(5000, false);
    assert!(s.enable_adaptive());
    s.controller_stopped();
    assert_eq!(s.mode(), Mode::Manual);
    assert!(!s.controller_active());
    assert!(s.enable_adaptive());
}

#[test]
fn next_image_message_serves_frame() {
    let mut s = ControlState::new(5000, false);
    assert_eq!(s.handle(ControlMessage::NextImage), ServerAction::ServeFrame);
    assert_eq!(s.read_rate(), 5000);
}

#[test]
fn signal_interval_follows_rate() {
    assert_eq!(ControlState::new(5000, false).signal_interval_micros(), 200_000);
    assert_eq!(ControlState::new(30_000, false).signal_interval_micros(), 33_333);
    assert_eq!(ControlState::new(500, false).signal_interval_micros(), 2_000_000);
    assert_eq!(ControlState::new(3000, false).signal_interval_micros(), 333_333);
}
