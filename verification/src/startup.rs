//! What a run decides before it types anything.

use vstd::prelude::*;
use vstd::string::StringExecFns;

verus! {

/// The end of a run that cannot go on: what to tell the user, and the exit code.
#[derive(Debug, Clone, PartialEq, Eq)]
pub struct Exit {
    pub message: String,
    pub code: i32,
}

/// Decides what follows the search for a database file: the run goes on where the file
/// was found, and ends with `err_msg` and exit code 1 where it was not.
pub fn database_check(found: bool, err_msg: &str) -> (out: Result<(), Exit>)
    ensures
        match out {
            Ok(_) => found,
            Err(exit) => !found && exit.message@ == err_msg@ && exit.code == 1,
        },
{
    if found {
        Ok(())
    } else {
        Err(Exit { message: String::from_str(err_msg), code: 1 })
    }
}

} // verus!
