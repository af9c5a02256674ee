use bongo_modulator::{enable_ai, next_image_path, set_fps, Config, ControlMessage};

#[test]
fn next_image_uses_daemon() {
    let reply = Some("/tmp/frames/img.png".to_string());
    assert_eq!(next_image_path(reply), Some("/tmp/frames/img.png".to_string()));
}

#[test]
fn empty_or_missing_reply_gives_no_path() {
    assert_eq!(next_image_path(Some(String::new())), None);
    assert_eq!(next_image_path(None), None);
}

#[test]
fn default_config() {
    assert_eq!(Config::default(), Config { rate: 5000, ai_mode: false });
}

#[test]
fn set_fps_records_manual_rate() {
    let mut cfg = Config { rate: 5000, ai_mode: true };
    assert_eq!(set_fps(&mut cfg, 12), ControlMessage::SetFps(12));
    assert_eq!(cfg, Config { rate: 12_000, ai_mode: false });
    assert_eq!(set_fps(&mut cfg, 45), ControlMessage::SetFps(30));
    assert_eq!(cfg.rate, 30_000);
    assert_eq!(set_fps(&mut cfg, 30), ControlMessage::SetFps(30));
    assert_eq!(set_fps(&mut cfg, 0), ControlMessage::SetFps(0));
    assert_eq!(cfg.rate, 500);
}

#[test]
fn enable_ai_records_mode() {
    let mut cfg = Config { rate: 7000, ai_mode: false };
    assert_eq!(enable_ai(&mut cfg), ControlMessage::EnableAi);
    assert_eq!(cfg, Config { rate: 7000, ai_mode: true });
}
