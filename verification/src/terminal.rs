//! Terminal settings and requests.

use vstd::prelude::*;

verus! {

pub const TCGETS: usize = 0x5401;

pub const TCSETS: usize = 0x5402;

pub const TIOCGPGRP: usize = 0x540F;

pub const TIOCSPGRP: usize = 0x5410;

pub const TIOCGWINSZ: usize = 0x5413;

pub const FIONCLEX: usize = 0x5450;

pub const FIOCLEX: usize = 0x5451;

pub const FIONBIO: usize = 0x5421;

pub const LM_ISIG: u32 = 0o000001;

pub const LM_ICANON: u32 = 0o000002;

pub const LM_ECHO: u32 = 0o000010;

pub const LM_ECHOE: u32 = 0o000020;

pub const LM_ECHOK: u32 = 0o000040;

pub const LM_ECHONL: u32 = 0o000100;

pub const LM_NOFLSH: u32 = 0o000200;

pub const LM_TOSTOP: u32 = 0o000400;

pub const LM_IEXTEN: u32 = 0o100000;

pub const LM_XCASE: u32 = 0o000004;

pub const LM_ECHOCTL: u32 = 0o001000;

pub const LM_ECHOPRT: u32 = 0o002000;

pub const LM_ECHOKE: u32 = 0o004000;

pub const LM_FLUSHO: u32 = 0o010000;

pub const LM_PENDIN: u32 = 0o040000;

pub const LM_EXTPROC: u32 = 0o200000;

/// The bytes that [`TerminalIOSetting`] takes in user memory.
pub const TERMIOS_SZ: usize = 60;

/// The bytes that [`WindowSize`] takes in user memory.
pub const WINSIZE_SZ: usize = 8;

/// The settings of a terminal, as a user sees them.
#[derive(Clone, Copy)]
pub struct TerminalIOSetting {
    pub input_flags: u32,
    pub output_flags: u32,
    pub control_flags: u32,
    pub local_flags: u32,
    pub line: u8,
    pub cc: [u8; 32],
    pub input_speed: u32,
    pub output_speed: u32,
}

/// The control characters that a terminal starts with.
pub open spec fn default_cc() -> Seq<u8> {
    seq![3u8, 28, 127, 21, 4, 0, 1, 0, 17, 19, 26, 255, 18, 15, 23, 22, 255] + Seq::new(15, |i: int| 0u8)
}

impl Default for TerminalIOSetting {
    fn default() -> (r: Self)
        ensures
            r.input_flags == 0o66402,
            r.output_flags == 0o5,
            r.control_flags == 0o2277,
            r.local_flags == 0o105073,
            r.line == 0,
            r.cc@ == default_cc(),
            r.input_speed == 0,
            r.output_speed == 0,
    {
        let r = TerminalIOSetting {
            input_flags: 0o66402,
            output_flags: 0o5,
            control_flags: 0o2277,
            local_flags: 0o105073,
            line: 0,
            cc: [
                3, 28, 127, 21, 4, 0, 1, 0, 17, 19, 26, 255, 18, 15, 23, 22, 255, 0, 0, 0, 0, 0, 0, 0, 0, 0, 0, 0, 0,
                0, 0, 0,
            ],
            input_speed: 0,
            output_speed: 0,
        };
        assert(r.cc@ =~= default_cc());
        r
    }
}

#[derive(Clone, Copy, Debug, PartialEq, Eq, Structural)]
pub struct WindowSize {
    pub row: u16,
    pub col: u16,
    pub xpx: u16,
    pub ypx: u16,
}

impl Default for WindowSize {
    fn default() -> (r: Self)
        ensures
            r == (WindowSize { row: 0, col: 0, xpx: 0, ypx: 0 }),
    {
        WindowSize { row: 0, col: 0, xpx: 0, ypx: 0 }
    }
}

} // verus!
