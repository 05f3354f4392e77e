use vstd::prelude::*;
use crate::text::{lower_seq, lower_chars, str_chars, chars_eq};

verus! {

/// The architecture tag a registry file may carry in a `#arch=` line.
#[derive(Clone, Copy, PartialEq, Eq, Structural, Debug)]
pub enum Architecture {
    Unknown,
    Win32,
    Win64,
}

impl Default for Architecture {
    fn default() -> (r: Self)
        ensures
            r == Architecture::Unknown,
    {
        Architecture::Unknown
    }
}

/// Which architecture a tag names, compared ASCII-case-insensitively;
/// unknown tags name none.
pub open spec fn spec_from_tag(t: Seq<char>) -> Option<Architecture> {
    if lower_seq(t) == "win32"@ {
        Some(Architecture::Win32)
    } else if lower_seq(t) == "win64"@ {
        Some(Architecture::Win64)
    } else {
        None
    }
}

impl Architecture {
    pub fn from_tag(tag: &str) -> (r: Option<Self>)
        ensures
            r == spec_from_tag(tag@),
    {
        let tc = str_chars(tag);
        let lc = lower_chars(&tc);
        let w32 = str_chars("win32");
        let w64 = str_chars("win64");
        if chars_eq(&lc, &w32) {
            Some(Architecture::Win32)
        } else if chars_eq(&lc, &w64) {
            Some(Architecture::Win64)
        } else {
            None
        }
    }

    pub fn as_tag(&self) -> (r: Option<&'static str>)
        ensures
            match self {
                Architecture::Unknown => r is None,
                Architecture::Win32 => r is Some && r.unwrap()@ == "win32"@,
                Architecture::Win64 => r is Some && r.unwrap()@ == "win64"@,
            },
    {
        match self {
            Architecture::Unknown => None,
            Architecture::Win32 => Some("win32"),
            Architecture::Win64 => Some("win64"),
        }
    }
}

} // verus!
