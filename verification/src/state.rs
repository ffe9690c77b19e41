//! The proxy's mode and its two spellings: the one kept in the state file
//! and the one the user interface speaks.
use vstd::prelude::*;
use crate::text::{
    ascii_upper_char, is_white_space, same_chars, to_chars, to_uppercase, trim_bounds, trimmed,
    uppercase, is_ascii_char, skip_ws, skip_ws_back,
};

verus! {

/// What the proxy does with emblem requests.
#[derive(Debug, Clone, Copy, PartialEq, Eq, Structural)]
pub enum Mode {
    /// Everything passes through untouched.
    Passthrough,
    /// Real emblem responses are saved before being passed on.
    Capture,
    /// Emblem responses are replaced by the selected emblem.
    Inject,
}

/// The state-file spelling of a mode.
pub open spec fn internal_name(m: Mode) -> Seq<char> {
    match m {
        Mode::Passthrough => "PASSTHROUGH"@,
        Mode::Capture => "CAPTURE"@,
        Mode::Inject => "INJECT"@,
    }
}

/// The user-interface spelling of a mode.
pub open spec fn public_name(m: Mode) -> Seq<char> {
    match m {
        Mode::Passthrough => "off"@,
        Mode::Capture => "capture"@,
        Mode::Inject => "inject"@,
    }
}

/// The mode whose state-file spelling is exactly `s`.
pub open spec fn mode_with_internal_name(s: Seq<char>) -> Option<Mode> {
    if s == "PASSTHROUGH"@ {
        Some(Mode::Passthrough)
    } else if s == "CAPTURE"@ {
        Some(Mode::Capture)
    } else if s == "INJECT"@ {
        Some(Mode::Inject)
    } else {
        None
    }
}

/// The mode whose user-interface spelling is exactly `s`.
pub open spec fn mode_with_public_name(s: Seq<char>) -> Option<Mode> {
    if s == "off"@ {
        Some(Mode::Passthrough)
    } else if s == "capture"@ {
        Some(Mode::Capture)
    } else if s == "inject"@ {
        Some(Mode::Inject)
    } else {
        None
    }
}

impl Mode {
    /// The spelling kept in the state file.
    pub fn as_internal_str(self) -> (r: &'static str)
        ensures
            r@ == internal_name(self),
    {
        match self {
            Mode::Passthrough => "PASSTHROUGH",
            Mode::Capture => "CAPTURE",
            Mode::Inject => "INJECT",
        }
    }

    /// Reads a state-file spelling, ignoring surrounding white space and
    /// letter case (`trim` then `to_uppercase`).
    pub fn from_internal_str(s: &str) -> (r: Option<Mode>)
        ensures
            r == mode_with_internal_name(uppercase(trimmed(s@))),
    {
        let cs = to_chars(s);
        let (a, b) = trim_bounds(cs.as_slice());
        let t = s.substring_char(a, b);
        let up = to_uppercase(t);
        let u = up.as_str();
        if same_chars(u, "PASSTHROUGH") {
            Some(Mode::Passthrough)
        } else if same_chars(u, "CAPTURE") {
            Some(Mode::Capture)
        } else if same_chars(u, "INJECT") {
            Some(Mode::Inject)
        } else {
            None
        }
    }

    /// The spelling the user interface uses.
    pub fn as_public_str(self) -> (r: &'static str)
        ensures
            r@ == public_name(self),
    {
        match self {
            Mode::Passthrough => "off",
            Mode::Capture => "capture",
            Mode::Inject => "inject",
        }
    }

    /// Reads a user-interface spelling; only the exact spellings are accepted.
    pub fn from_public_str(s: &str) -> (r: Option<Mode>)
        ensures
            r == mode_with_public_name(s@),
    {
        if same_chars(s, "off") {
            Some(Mode::Passthrough)
        } else if same_chars(s, "capture") {
            Some(Mode::Capture)
        } else if same_chars(s, "inject") {
            Some(Mode::Inject)
        } else {
            None
        }
    }
}

/// The mode a state file's text stands for; text that names no mode, like a
/// missing file, means `Passthrough`.
pub open spec fn mode_of_state(text: Option<Seq<char>>) -> Mode {
    match text {
        Some(t) => match mode_with_internal_name(uppercase(trimmed(t))) {
            Some(m) => m,
            None => Mode::Passthrough,
        },
        None => Mode::Passthrough,
    }
}

/// The mode given the state file's text, `None` when it could not be read.
pub fn mode_from_state_text(text: Option<&str>) -> (r: Mode)
    ensures
        r == mode_of_state(match text { Some(t) => Some(t@), None => None }),
{
    match text {
        Some(t) => match Mode::from_internal_str(t) {
            Some(m) => m,
            None => Mode::Passthrough,
        },
        None => Mode::Passthrough,
    }
}

/// Reading back what was written gives the same mode: the state-file
/// spelling of every mode is read as that mode.
pub proof fn lemma_internal_name_round_trip(m: Mode)
    ensures
        mode_with_internal_name(uppercase(trimmed(internal_name(m)))) == Some(m),
        mode_of_state(Some(internal_name(m))) == m,
{
    reveal_strlit("PASSTHROUGH");
    reveal_strlit("CAPTURE");
    reveal_strlit("INJECT");
    let s = internal_name(m);
    assert(s.len() > 0);
    assert(!is_white_space(s[0]));
    assert(!is_white_space(s[s.len() - 1]));
    assert(skip_ws(s, 0) == 0);
    assert(skip_ws_back(s, s.len() as int) == s.len());
    assert(trimmed(s) =~= s);
    assert(forall|i: int| 0 <= i < s.len() ==> is_ascii_char(#[trigger] s[i]));
    assert(Seq::new(s.len(), |i: int| ascii_upper_char(s[i])) =~= s);
}

/// The user-interface spelling of every mode is read as that mode.
pub proof fn lemma_public_name_round_trip(m: Mode)
    ensures
        mode_with_public_name(public_name(m)) == Some(m),
{
    reveal_strlit("off");
    reveal_strlit("capture");
    reveal_strlit("inject");
    assert("off"@.len() == 3 && "capture"@.len() == 7 && "inject"@.len() == 6);
    assert("off"@ != "capture"@ && "off"@ != "inject"@ && "capture"@ != "inject"@);
}

} // verus!
