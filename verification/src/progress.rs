//! Log-line composition. The library decides what each log line says;
//! printing and any terminal decoration stay with the caller.

use vstd::prelude::*;
use vstd::string::*;

verus! {

/// The verbose log line for `text`, emitted only in verbose mode.
pub fn log_verbose(verbose: bool, text: &str) -> (r: Option<String>)
    ensures
        match r {
            Some(line) => verbose && line@ == " VERBOSE "@ + seq![' '] + text@,
            None => !verbose,
        },
{
    if verbose {
        let mut line = String::from_str(" VERBOSE ");
        line.append(" ");
        line.append(text);
        proof {
            reveal_strlit(" ");
            assert(line@ =~= " VERBOSE "@ + seq![' '] + text@);
        }
        Some(line)
    } else {
        None
    }
}

/// The warning log line for `text`; warnings are always shown.
pub fn log_warning(text: &str) -> (r: String)
    ensures
        r@ == " WARNING "@ + seq![' '] + text@,
{
    let mut line = String::from_str(" WARNING ");
    line.append(" ");
    line.append(text);
    proof {
        reveal_strlit(" ");
        assert(line@ =~= " WARNING "@ + seq![' '] + text@);
    }
    line
}

/// The progress message for `text`: shown as the current status, and
/// as a verbose line when verbose mode is on.
pub fn log_progress(verbose: bool, text: &str) -> (r: (String, Option<String>))
    ensures
        r.0@ == text@,
        match r.1 {
            Some(line) => verbose && line@ == " VERBOSE "@ + seq![' '] + text@,
            None => !verbose,
        },
{
    (text.to_owned(), log_verbose(verbose, text))
}

} // verus!
