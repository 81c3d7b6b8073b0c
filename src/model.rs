use vstd::prelude::*;

verus! {

/// One recorded step of a search: the bounds of the range still in play and
/// the position that was probed. Scanning searches set all three to the
/// scanned position.
#[derive(Clone, Copy, Debug, PartialEq, Eq, Structural)]
pub struct Guess {
    pub current_middle: usize,
    pub current_low: usize,
    pub current_high: usize,
}

/// A search request, and after a search its response: the values and target
/// are echoed, `target_found_index` and `guesses` are filled in by the search.
pub struct SortingData {
    pub values: Vec<i32>,
    pub target: i32,
    pub target_found_index: Option<i32>,
    pub guesses: Vec<Guess>,
}

/// Mathematical picture of a `SortingData`.
pub struct SearchView {
    pub values: Seq<i32>,
    pub target: i32,
    pub found: Option<int>,
    pub guesses: Seq<Guess>,
}

impl View for SortingData {
    type V = SearchView;

    open spec fn view(&self) -> SearchView {
        SearchView {
            values: self.values@,
            target: self.target,
            found: match self.target_found_index {
                Some(i) => Some(i as int),
                None => None,
            },
            guesses: self.guesses@,
        }
    }
}

/// The outcome of a search: the index found, if any, and the trace.
pub type Outcome = (Option<int>, Seq<Guess>);

/// The response to `request`: its values and target, with `outcome` filled in.
pub open spec fn answered(request: SearchView, outcome: Outcome) -> SearchView {
    SearchView {
        values: request.values,
        target: request.target,
        found: outcome.0,
        guesses: outcome.1,
    }
}

/// The probe recording the range `low ..= high` with `middle` probed.
pub open spec fn probe(low: int, middle: int, high: int) -> Guess {
    Guess { current_middle: middle as usize, current_low: low as usize, current_high: high as usize }
}

/// The probe a scanning search records at position `i`.
pub open spec fn point_probe(i: int) -> Guess {
    probe(i, i, i)
}

/// The probes of a scan over positions `from .. to`, in order.
pub open spec fn point_probes(from: int, to: int) -> Seq<Guess> {
    Seq::new((to - from) as nat, |k: int| point_probe(from + k))
}

/// Non-decreasing order.
pub open spec fn is_sorted(s: Seq<i32>) -> bool {
    forall|i: int, j: int| 0 <= i <= j < s.len() ==> s[i] <= s[j]
}

/// The first position in `lo .. hi` that holds `t`.
pub open spec fn first_match(s: Seq<i32>, t: i32, lo: int, hi: int) -> Option<int>
    decreases hi - lo,
{
    if lo >= hi {
        None
    } else if s[lo] == t {
        Some(lo)
    } else {
        first_match(s, t, lo + 1, hi)
    }
}

/// `first_match` finds the first occurrence in its range, and nothing when
/// the range holds no occurrence.
pub proof fn lemma_first_match(s: Seq<i32>, t: i32, lo: int, hi: int)
    requires
        0 <= lo,
        hi <= s.len(),
    ensures
        match first_match(s, t, lo, hi) {
            Some(x) => lo <= x < hi && s[x] == t && forall|j: int| lo <= j < x ==> s[j] != t,
            None => forall|j: int| lo <= j < hi ==> s[j] != t,
        },
    decreases hi - lo,
{
    if lo < hi && s[lo] != t {
        lemma_first_match(s, t, lo + 1, hi);
    }
}

} // verus!
