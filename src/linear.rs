use vstd::prelude::*;
use crate::model::{answered, first_match, lemma_first_match, point_probes, Guess, Outcome, SortingData};

verus! {

/// What linear search yields: the first occurrence of `t`, and one probe for
/// each position compared up to and including it.
pub open spec fn linear_outcome(s: Seq<i32>, t: i32) -> Outcome {
    match first_match(s, t, 0, s.len() as int) {
        Some(i) => (Some(i), point_probes(0, i + 1)),
        None => (None, point_probes(0, s.len() as int)),
    }
}

/// Compares `values[start .. end]` with `target` in order, recording a point
/// probe for each position compared, and stops at the first match.
pub(crate) fn scan_block(
    values: &Vec<i32>,
    target: i32,
    start: usize,
    end: usize,
    guesses: &mut Vec<Guess>,
) -> (found: Option<usize>)
    requires
        start <= end <= values@.len(),
    ensures
        found == match first_match(values@, target, start as int, end as int) {
            Some(x) => Some(x as usize),
            None => None::<usize>,
        },
        final(guesses)@ == old(guesses)@ + match found {
            Some(x) => point_probes(start as int, x + 1),
            None => point_probes(start as int, end as int),
        },
{
    let mut x: usize = start;
    while x < end
        invariant
            start <= x <= end <= values@.len(),
            guesses@ == old(guesses)@ + point_probes(start as int, x as int),
            forall|j: int| start <= j < x ==> values@[j] != target,
        decreases end - x,
    {
        guesses.push(Guess { current_middle: x, current_low: x, current_high: x });
        assert(guesses@ =~= old(guesses)@ + point_probes(start as int, x + 1));
        if values[x] == target {
            proof {
                lemma_first_match(values@, target, start as int, end as int);
            }
            return Some(x);
        }
        x = x + 1;
    }
    proof {
        lemma_first_match(values@, target, start as int, end as int);
    }
    None
}

/// Scans `data.values` from the front for `data.target`, recording one probe
/// per position compared, and stops at the first occurrence.
pub fn linear_search(data: SortingData) -> (r: SortingData)
    requires
        data.values@.len() <= i32::MAX,
    ensures
        r@ == answered(data@, linear_outcome(data@.values, data@.target)),
        r@.found is Some <==> data@.values.contains(data@.target),
        r@.found matches Some(i) ==> {
            &&& 0 <= i < data@.values.len()
            &&& data@.values[i] == data@.target
            &&& forall|j: int| 0 <= j < i ==> data@.values[j] != data@.target
        },
        r@.guesses.len() <= data@.values.len(),
        data@.values.len() > 0 ==> r@.guesses.len() >= 1,
{
    let mut guesses: Vec<Guess> = Vec::new();
    let len = data.values.len();
    let found = scan_block(&data.values, data.target, 0, len, &mut guesses);
    proof {
        lemma_first_match(data@.values, data@.target, 0, len as int);
        assert(guesses@ =~= linear_outcome(data@.values, data@.target).1);
    }
    let target_found_index = match found {
        Some(i) => Some(i as i32),
        None => None,
    };
    SortingData { values: data.values, target: data.target, target_found_index, guesses }
}

} // verus!
