use vstd::prelude::*;
use crate::binary::binary_outcome;
use crate::jump::jump_outcome;
use crate::linear::linear_outcome;
use crate::model::{answered, SearchView};

verus! {

/// Searching is repeatable. Two requests with the same values and target get
/// the same response from each search, whatever index or trace they carried
/// in; and searching a response again gives that response back unchanged.
pub proof fn lemma_search_repeatable(first: SearchView, second: SearchView)
    requires
        first.values == second.values,
        first.target == second.target,
    ensures
        answered(first, linear_outcome(first.values, first.target))
            == answered(second, linear_outcome(second.values, second.target)),
        answered(first, binary_outcome(first.values, first.target))
            == answered(second, binary_outcome(second.values, second.target)),
        answered(first, jump_outcome(first.values, first.target))
            == answered(second, jump_outcome(second.values, second.target)),
        ({
            let r = answered(first, linear_outcome(first.values, first.target));
            answered(r, linear_outcome(r.values, r.target)) == r
        }),
        ({
            let r = answered(first, binary_outcome(first.values, first.target));
            answered(r, binary_outcome(r.values, r.target)) == r
        }),
        ({
            let r = answered(first, jump_outcome(first.values, first.target));
            answered(r, jump_outcome(r.values, r.target)) == r
        }),
{
}

} // verus!
