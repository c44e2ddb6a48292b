//! The editor-facing request: which calls are searches, and with what.
use vstd::prelude::*;

verus! {

/// A failure tied to one file or directory entry, as a message.
#[derive(Debug)]
pub struct RgErr {
    pub msg: String,
}

/// Answers the editor's requests with records of `CONTEXT_LENGTH` lines of
/// context on each side of a match.
#[derive(Clone, Copy, Debug)]
pub struct NeovimHandler<const CONTEXT_LENGTH: usize> {}

/// The arguments of a search: working directory, path, pattern.
pub open spec fn grep_args(
    name: Seq<char>,
    cwd: Option<String>,
    path: Option<String>,
    pattern: Option<String>,
) -> Option<(String, String, String)> {
    if name == "grep"@ && cwd is Some && path is Some && pattern is Some {
        Some((cwd.unwrap(), path.unwrap(), pattern.unwrap()))
    } else {
        None
    }
}

impl<const CONTEXT_LENGTH: usize> NeovimHandler<CONTEXT_LENGTH> {
    pub fn new() -> (r: Self) {
        NeovimHandler {  }
    }

    /// The number of context lines on each side of a match.
    pub fn context_length(&self) -> (r: usize)
        ensures
            r == CONTEXT_LENGTH,
    {
        CONTEXT_LENGTH
    }

    /// Decides a request: a call named "grep" that carries a working
    /// directory, a path and a pattern is a search with those; anything else
    /// is answered with nothing.
    pub fn grep_request(
        &self,
        name: &str,
        cwd: Option<String>,
        path: Option<String>,
        pattern: Option<String>,
    ) -> (r: Option<(String, String, String)>)
        ensures
            r == grep_args(name@, cwd, path, pattern),
    {
        let method = "grep".to_owned();
        let asked = name.to_owned();
        proof {
            reveal_strlit("grep");
        }
        if asked != method {
            return None;
        }
        match (cwd, path, pattern) {
            (Some(c), Some(p), Some(q)) => Some((c, p, q)),
            _ => None,
        }
    }
}

} // verus!
