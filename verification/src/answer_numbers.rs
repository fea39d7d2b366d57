//! The literal-sequence view of the expression engine: the ordered integer
//! literals an answer consumes, from the same single parse pass that
//! evaluates it.

use vstd::prelude::*;
use vstd::string::StringSliceAdditionalSpecFns;
use crate::answer_analizer::{analize, spec_analyze, ParseOrEvalError};

verus! {

/// The ordered integer literals the answer consumes, or the failure that
/// stopped parse or evaluation.
pub fn expr(i: &str) -> (r: Result<Vec<i64>, ParseOrEvalError>)
    ensures
        spec_analyze(i.spec_bytes()) matches Ok((v, l)) ==> (r matches Ok(lv) && lv@ == l),
        spec_analyze(i.spec_bytes()) matches Err(e) ==> r == Err::<Vec<i64>, ParseOrEvalError>(e),
{
    match analize(i) {
        Ok((_value, lits)) => Ok(lits),
        Err(e) => Err(e),
    }
}

} // verus!
