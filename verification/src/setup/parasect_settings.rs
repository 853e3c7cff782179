use vstd::prelude::*;

use crate::command_gen::any_contains;
use crate::range::numeric_range::NumericRange;
use crate::setup::command_gen::{CommandGen, missing_substitution_line};
use crate::ui::line::Line;
use crate::util::text::strings_view;

verus! {

/// Checks the command for a search of `range` and reports why it is refused.
///
/// This function runs no search, so it is only for commands that lack the substitution
/// string.
pub fn run_parasect(range: NumericRange, args: Vec<String>, ss: String) -> (r: Result<(), Line>)
    requires
        !any_contains(strings_view(args@), ss@),
    ensures
        r matches Err(line) && line@ == missing_substitution_line(ss@),
{
    match CommandGen::new(args, ss) {
        Ok(_) => Ok(()),
        Err(line) => Err(line),
    }
}

} // verus!
