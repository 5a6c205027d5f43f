//! The settings of a run: the key that pauses, the font, and where the
//! sounds are.

use vstd::prelude::*;
use vstd::string::StringExecFns;

use crate::font::AaFont;

verus! {

/// The switch that holds the display back while the timer is paused.
#[derive(Debug)]
pub struct PauseGate {
    paused: bool,
}

impl View for PauseGate {
    type V = bool;

    closed spec fn view(&self) -> bool {
        self.paused
    }
}

impl PauseGate {
    /// A gate that is open: nothing is paused.
    pub fn new() -> (gate: Self)
        ensures
            !gate@,
    {
        Self { paused: false }
    }

    /// Whether the display is held back.
    pub fn is_paused(&self) -> (paused: bool)
        ensures
            paused == self@,
    {
        self.paused
    }

    /// Holds the display back.
    pub fn pause(&mut self)
        ensures
            final(self)@,
    {
        self.paused = true;
    }

    /// Lets the display go on.
    pub fn resume(&mut self)
        ensures
            !final(self)@,
    {
        self.paused = false;
    }

    /// Pauses where it was going, and goes on where it was paused.
    pub fn toggle(&mut self)
        ensures
            final(self)@ == !old(self)@,
    {
        self.paused = !self.paused;
    }
}

/// The keys that the timer listens to.
#[derive(Debug)]
pub struct Bind {
    /// The key that pauses the timer and lets it go on again.
    pub stop_start: String,
}

impl Bind {
    /// The line that tells the user which keys do what.
    pub fn nav_msg(&self) -> (msg: String)
        ensures
            msg@ == "stop: "@ + self.stop_start@ + ", start: "@ + self.stop_start@,
    {
        let mut msg = String::from_str("stop: ");
        msg.append(self.stop_start.as_str());
        msg.append(", start: ");
        msg.append(self.stop_start.as_str());
        msg
    }

    /// Handles a key press: the pause key flips the pause switch, and every
    /// other key leaves it as it is. The result says whether it was flipped,
    /// in which case those who wait for it are to be woken.
    pub fn handle(&self, input: &str, gate: &mut PauseGate) -> (flipped: bool)
        ensures
            flipped == (input@ == self.stop_start@),
            final(gate)@ == (if flipped {
                !old(gate)@
            } else {
                old(gate)@
            }),
    {
        let pressed = input.to_owned();
        if pressed == self.stop_start {
            gate.toggle();
            true
        } else {
            false
        }
    }
}

/// The settings of a run.
#[derive(Debug)]
pub struct Config {
    /// The line that tells the user which keys do what.
    pub nav_msg: String,
    /// The keys that the timer listens to.
    pub bind: Bind,
    /// The font of the clock.
    pub aafont: AaFont,
    /// The path of the sound that ends a session.
    pub session_end_audio: String,
    /// The path of the sound that ends a break.
    pub break_end_audio: String,
    /// The path that a timer's state may be kept at. Nothing reads or writes it.
    pub info_saved: String,
}

impl Config {
    /// The settings made of their parts, with the line on the keys that
    /// `bind` gives.
    pub fn new(
        bind: Bind,
        aafont: AaFont,
        session_end_audio: String,
        break_end_audio: String,
        info_saved: String,
    ) -> (config: Self)
        ensures
            config.nav_msg@ == "stop: "@ + bind.stop_start@ + ", start: "@ + bind.stop_start@,
            config.bind == bind,
            config.aafont == aafont,
            config.session_end_audio == session_end_audio,
            config.break_end_audio == break_end_audio,
            config.info_saved == info_saved,
    {
        let nav_msg = bind.nav_msg();
        Self { nav_msg, bind, aafont, session_end_audio, break_end_audio, info_saved }
    }
}

} // verus!
