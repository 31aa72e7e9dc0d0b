//! The check on the file that a command is given: it must exist and must not be a directory.
use vstd::prelude::*;
use crate::text::{push_str, string_of};

verus! {

/// The message with which `command` refuses `path`, given whether the path exists and
/// whether it is a directory; `None` when the path names an existing file.
pub open spec fn path_problem(command: Seq<char>, path: Seq<char>, exists: bool, is_dir: bool) -> Option<Seq<char>> {
    if !exists {
        Some(command + ": "@ + path + " does not exist"@)
    } else if is_dir {
        Some(command + ": "@ + path + " is a directory, not a file"@)
    } else {
        None
    }
}

/// Checks the path handed to `command`: `Ok` for an existing file, else the message that
/// says why the path is refused.
pub fn validate_file(command: &str, path: &str, exists: bool, is_dir: bool) -> (r: Result<(), String>)
    ensures
        match (r, path_problem(command@, path@, exists, is_dir)) {
            (Ok(()), None) => true,
            (Err(m), Some(t)) => m@ == t,
            _ => false,
        },
{
    if exists && !is_dir {
        return Ok(());
    }
    let mut out: Vec<char> = Vec::new();
    push_str(&mut out, command);
    push_str(&mut out, ": ");
    push_str(&mut out, path);
    if !exists {
        push_str(&mut out, " does not exist");
    } else {
        push_str(&mut out, " is a directory, not a file");
    }
    proof {
        assert(out@ =~= path_problem(command@, path@, exists, is_dir).unwrap());
    }
    Err(string_of(out.as_slice()))
}

} // verus!
