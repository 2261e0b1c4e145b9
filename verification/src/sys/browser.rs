//! Handing a URL to the system's opener: which program each OS wants and the
//! argument vector it gets, plus the token that proves a URL's scheme was
//! checked against an allowlist before it can reach that program.
//!
//! Never through a shell: the URL is one element of an argument vector, placed
//! verbatim, and no command string is built anywhere. Spawning the child is the
//! caller's, outside this library.
use vstd::prelude::*;

use crate::url::{eq_ignore_ascii_case, scheme_allowed, scheme_ends_at, scheme_of};

verus! {

/// The opener conventions this crate knows.
#[derive(Clone, Copy, Debug, PartialEq, Eq, Structural)]
pub enum Desktop {
    /// Anything with an XDG desktop: `xdg-open`.
    Xdg,
    Macos,
    Windows,
}

/// One process to run: a program name and its arguments, in order. A vector,
/// never a string.
#[derive(Clone, Debug, PartialEq, Eq)]
pub struct Argv {
    pub program: &'static str,
    pub args: Vec<String>,
}

/// The opener invocation for `url` on `desktop`. The URL is its own argument,
/// always the last one, byte for byte as given; the program is never a shell.
pub fn argv(desktop: Desktop, url: &str) -> (a: Argv)
    ensures
        desktop == Desktop::Xdg ==> a.program@ == "xdg-open"@ && a.args@.len() == 1,
        desktop == Desktop::Macos ==> a.program@ == "open"@ && a.args@.len() == 1,
        desktop == Desktop::Windows ==> a.program@ == "rundll32"@ && a.args@.len() == 2
            && a.args@[0]@ == "url.dll,FileProtocolHandler"@,
        a.args@.len() >= 1,
        a.args@.last()@ == url@,
{
    match desktop {
        Desktop::Xdg => Argv { program: "xdg-open", args: vec![url.to_owned()] },
        Desktop::Macos => Argv { program: "open", args: vec![url.to_owned()] },
        Desktop::Windows => Argv {
            program: "rundll32",
            args: vec![String::from_str("url.dll,FileProtocolHandler"), url.to_owned()],
        },
    }
}

/// Why a URL did not reach a browser. Never fatal: a status-bar message.
#[derive(Clone, Debug, PartialEq, Eq)]
pub enum OpenError {
    /// The opener is not installed.
    Missing(&'static str),
    /// It exists but could not be started; carries the OS's reason.
    Failed { program: &'static str, why: String },
}

impl OpenError {
    /// The status-bar line for this failure, naming the program.
    pub fn message(&self) -> (m: String)
        ensures
            self matches OpenError::Missing(p) ==> m@ == "no system opener: "@ + p@
                + " is not installed"@,
            self matches OpenError::Failed { program, why } ==> m@ == "could not run "@ + program@
                + ": "@ + why@,
    {
        match self {
            OpenError::Missing(p) => {
                let mut m = String::from_str("no system opener: ");
                m.append(p);
                m.append(" is not installed");
                m
            },
            OpenError::Failed { program, why } => {
                let mut m = String::from_str("could not run ");
                m.append(program);
                m.append(": ");
                m.append(why.as_str());
                m
            },
        }
    }
}

/// A URL whose scheme some allowlist admitted: the only thing the opener
/// accepts. The field is private and [`Vetted::new`] is the only constructor.
#[derive(Clone, Copy, Debug, PartialEq, Eq)]
pub struct Vetted<'a> {
    url: &'a str,
}

impl<'a> Vetted<'a> {
    /// The URL this token carries.
    pub closed spec fn spec_url(&self) -> &'a str {
        self.url
    }

    /// `Some` exactly when `url` has a scheme and that scheme is on `allowed`,
    /// ASCII case-insensitively. The token carries `url` untouched.
    pub fn new(url: &'a str, allowed: &[&str]) -> (r: Option<Vetted<'a>>)
        ensures
            r is Some <==> exists|k: int, i: int|
                #![trigger scheme_ends_at(url@, k), allowed@[i]]
                scheme_ends_at(url@, k) && 0 <= i < allowed@.len() && eq_ignore_ascii_case(
                    allowed@[i]@,
                    url@.subrange(0, k),
                ),
            r matches Some(v) ==> v.spec_url() == url,
    {
        let scheme = match scheme_of(url) {
            Some(s) => s,
            None => return None,
        };
        proof {
            let k = choose|k: int| scheme_ends_at(url@, k) && scheme@ == url@.subrange(0, k);
            assert forall|k2: int| scheme_ends_at(url@, k2) implies k2 == k by {
                if k2 < k {
                    assert(crate::url::scheme_char(url@[k2]));
                } else if k2 > k {
                    assert(crate::url::scheme_char(url@[k]));
                }
            }
        }
        if scheme_allowed(scheme, allowed) {
            Some(Vetted { url })
        } else {
            None
        }
    }

    /// The URL, exactly as the document wrote it.
    pub fn url(&self) -> (u: &'a str)
        ensures
            u == self.spec_url(),
    {
        self.url
    }
}

} // verus!
