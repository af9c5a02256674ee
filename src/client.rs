//! Decisions of the command-line client: the persisted configuration it
//! updates and the message it sends, and how it reads the daemon's reply.
use vstd::prelude::*;
use crate::control::{clamp_rate_spec, rate_from_fps, ControlMessage, DEFAULT_RATE, MAX_RATE, MILLI};

verus! {

/// Persisted settings: the manual rate in millihertz and whether adaptive mode is on.
#[derive(PartialEq, Eq, Structural, Clone, Copy, Debug)]
pub struct Config {
    pub rate: u32,
    pub ai_mode: bool,
}

impl Default for Config {
    fn default() -> (c: Self)
        ensures
            c == (Config { rate: DEFAULT_RATE, ai_mode: false }),
    {
        Config { rate: DEFAULT_RATE, ai_mode: false }
    }
}

/// `mode ai`: records adaptive mode and returns the message for the daemon.
pub fn enable_ai(cfg: &mut Config) -> (msg: ControlMessage)
    ensures
        *final(cfg) == (Config { ai_mode: true, ..*old(cfg) }),
        msg == ControlMessage::EnableAi,
{
    cfg.ai_mode = true;
    ControlMessage::EnableAi
}

/// Highest whole rate a client asks for, in frames per second.
pub const MAX_FPS: u32 = 30;

/// `mode fps <fps>`: records the clamped manual rate, leaves adaptive mode, and
/// returns the message for the daemon, which carries the rate capped at
/// `MAX_FPS` (the daemon raises a rate below its minimum itself).
pub fn set_fps(cfg: &mut Config, fps: u32) -> (msg: ControlMessage)
    ensures
        *final(cfg) == (Config { rate: clamp_rate_spec(fps * MILLI) as u32, ai_mode: false }),
        msg == ControlMessage::SetFps(if fps > MAX_FPS { MAX_FPS } else { fps }),
        MAX_FPS * MILLI == MAX_RATE,
{
    cfg.rate = rate_from_fps(fps);
    cfg.ai_mode = false;
    ControlMessage::SetFps(if fps > MAX_FPS { MAX_FPS } else { fps })
}

/// The frame path in the daemon's reply to `NextImage`: none when there was no
/// reply or the reply is empty.
pub fn next_image_path(reply: Option<String>) -> (r: Option<String>)
    ensures
        match reply {
            Some(p) => if p@.len() > 0 { r == Some(p) } else { r is None },
            None => r is None,
        },
{
    match reply {
        Some(p) => {
            if p.as_str().unicode_len() > 0 {
                Some(p)
            } else {
                None
            }
        },
        None => None,
    }
}

} // verus!
