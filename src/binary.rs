use vstd::prelude::*;
use crate::model::{answered, is_sorted, probe, Guess, Outcome, SortingData};

verus! {

/// Number of binary digits of `n` (zero for zero): how many times `n` can be
/// halved before it reaches zero.
pub open spec fn bit_width(n: nat) -> nat
    decreases n,
{
    if n == 0 {
        0
    } else {
        1 + bit_width(n / 2)
    }
}

/// The probes that binary search records while the range `low ..= high` is in
/// play, and the index it settles on.
pub open spec fn binary_steps(s: Seq<i32>, t: i32, low: int, high: int) -> Outcome
    decreases high - low + 1,
{
    if low < 0 || high >= s.len() || low > high {
        (None, Seq::empty())
    } else {
        let middle = (low + high) / 2;
        let here = probe(low, middle, high);
        if s[middle] < t {
            let rest = binary_steps(s, t, middle + 1, high);
            (rest.0, seq![here] + rest.1)
        } else if s[middle] > t {
            let rest = binary_steps(s, t, low, middle - 1);
            (rest.0, seq![here] + rest.1)
        } else {
            (Some(middle), seq![here])
        }
    }
}

/// What binary search yields: nothing for an empty sequence; otherwise an
/// initial probe of the whole range, then the probes of the halving loop.
pub open spec fn binary_outcome(s: Seq<i32>, t: i32) -> Outcome {
    if s.len() == 0 {
        (None, Seq::empty())
    } else {
        let high = s.len() - 1;
        let rest = binary_steps(s, t, 0, high);
        (rest.0, seq![probe(0, high / 2, high)] + rest.1)
    }
}

pub proof fn lemma_bit_width_monotonic(a: nat, b: nat)
    requires
        a <= b,
    ensures
        bit_width(a) <= bit_width(b),
    decreases b,
{
    if a > 0 {
        lemma_bit_width_monotonic(a / 2, b / 2);
    }
}

/// An index that binary search settles on holds the target, and lies in the range.
pub proof fn lemma_binary_steps_sound(s: Seq<i32>, t: i32, low: int, high: int)
    ensures
        binary_steps(s, t, low, high).0 matches Some(i) ==> low <= i <= high && s[i] == t,
    decreases high - low + 1,
{
    if !(low < 0 || high >= s.len() || low > high) {
        let middle = (low + high) / 2;
        if s[middle] < t {
            lemma_binary_steps_sound(s, t, middle + 1, high);
        } else if s[middle] > t {
            lemma_binary_steps_sound(s, t, low, middle - 1);
        }
    }
}

/// On sorted values, binary search misses only a target absent from the range.
pub proof fn lemma_binary_steps_complete(s: Seq<i32>, t: i32, low: int, high: int)
    requires
        is_sorted(s),
        0 <= low,
        high < s.len(),
        binary_steps(s, t, low, high).0 is None,
    ensures
        forall|k: int| low <= k <= high ==> s[k] != t,
    decreases high - low + 1,
{
    if low <= high {
        let middle = (low + high) / 2;
        if s[middle] < t {
            lemma_binary_steps_complete(s, t, middle + 1, high);
            assert forall|k: int| low <= k <= high implies s[k] != t by {
                if k <= middle {
                    assert(s[k] <= s[middle]);
                }
            }
        } else if s[middle] > t {
            lemma_binary_steps_complete(s, t, low, middle - 1);
            assert forall|k: int| low <= k <= high implies s[k] != t by {
                if k >= middle {
                    assert(s[middle] <= s[k]);
                }
            }
        }
    }
}

/// The halving loop records at most one probe per binary digit of the range's size.
pub proof fn lemma_binary_steps_length(s: Seq<i32>, t: i32, low: int, high: int)
    ensures
        binary_steps(s, t, low, high).1.len() <= bit_width(if low <= high { (high - low + 1) as nat } else { 0 }),
    decreases high - low + 1,
{
    if !(low < 0 || high >= s.len() || low > high) {
        let middle = (low + high) / 2;
        let w = (high - low + 1) as nat;
        if s[middle] < t {
            lemma_binary_steps_length(s, t, middle + 1, high);
            let sub = if middle + 1 <= high { (high - middle) as nat } else { 0 };
            lemma_bit_width_monotonic(sub, w / 2);
        } else if s[middle] > t {
            lemma_binary_steps_length(s, t, low, middle - 1);
            let sub = if low <= middle - 1 { (middle - low) as nat } else { 0 };
            lemma_bit_width_monotonic(sub, w / 2);
        }
    }
}

/// Binary search over `data.values`, which the caller keeps in non-decreasing
/// order (not checked). Records the initial range, then one probe per halving
/// step. An empty sequence yields no probes and no index.
pub fn binary_search(data: SortingData) -> (r: SortingData)
    requires
        data.values@.len() <= i32::MAX,
    ensures
        r@ == answered(data@, binary_outcome(data@.values, data@.target)),
        r@.found matches Some(i) ==> 0 <= i < data@.values.len() && data@.values[i] == data@.target,
        !data@.values.contains(data@.target) ==> r@.found is None,
        is_sorted(data@.values) && data@.values.contains(data@.target) ==> r@.found is Some,
        r@.guesses.len() <= bit_width(data@.values.len()) + 1,
        data@.values.len() > 0 ==> r@.guesses.len() >= 1,
{
    let len = data.values.len();
    let ghost s = data@.values;
    let ghost t = data.target;
    let mut guesses: Vec<Guess> = Vec::new();
    let mut target_found_index: Option<i32> = None;
    if len > 0 {
        let mut low: usize = 0;
        let mut high: usize = len - 1;
        guesses.push(Guess { current_middle: (low + high) / 2, current_low: low, current_high: high });
        assert(guesses@ =~= seq![probe(0, high as int / 2, high as int)]);
        while low <= high
            invariant_except_break
                target_found_index is None,
                binary_outcome(s, t) == (
                    binary_steps(s, t, low as int, high as int).0,
                    guesses@ + binary_steps(s, t, low as int, high as int).1,
                ),
            invariant
                s == data.values@,
                t == data.target,
                len == s.len(),
                len <= i32::MAX,
                high < len,
                low <= len,
            ensures
                binary_outcome(s, t) == (
                    match target_found_index {
                        Some(i) => Some(i as int),
                        None => None::<int>,
                    },
                    guesses@,
                ),
            decreases high + 1 - low,
        {
            let middle: usize = (low + high) / 2;
            let ghost before = guesses@;
            let ghost rest = binary_steps(s, t, low as int, high as int);
            guesses.push(Guess { current_middle: middle, current_low: low, current_high: high });
            let guess = data.values[middle];
            if guess < data.target {
                assert(rest.1 == seq![probe(low as int, middle as int, high as int)] + binary_steps(s, t, middle + 1, high as int).1);
                assert(before + rest.1 =~= guesses@ + binary_steps(s, t, middle + 1, high as int).1);
                low = middle + 1;
            } else if guess > data.target {
                assert(rest.1 == seq![probe(low as int, middle as int, high as int)] + binary_steps(s, t, low as int, middle - 1).1);
                assert(before + rest.1 =~= guesses@ + binary_steps(s, t, low as int, middle - 1).1);
                if middle == 0 {
                    assert(binary_steps(s, t, low as int, middle - 1).1 =~= Seq::<Guess>::empty());
                    assert(guesses@ + Seq::<Guess>::empty() =~= guesses@);
                    break;
                }
                high = middle - 1;
            } else {
                assert(before + rest.1 =~= guesses@);
                target_found_index = Some(middle as i32);
                break;
            }
        }
    }
    proof {
        if len > 0 {
            let high = len - 1;
            lemma_binary_steps_sound(s, t, 0, high as int);
            lemma_binary_steps_length(s, t, 0, high as int);
            if is_sorted(s) && binary_steps(s, t, 0, high as int).0 is None {
                lemma_binary_steps_complete(s, t, 0, high as int);
            }
        } else {
            assert(guesses@ =~= Seq::<Guess>::empty());
        }
    }
    SortingData { values: data.values, target: data.target, target_found_index, guesses }
}

} // verus!
