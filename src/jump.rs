use vstd::prelude::*;
use vstd::arithmetic::div_mod::{lemma_fundamental_div_mod, lemma_div_plus_one, lemma_mod_add_multiples_vanish, lemma_mod_pos_bound, lemma_small_mod};
use crate::linear::scan_block;
use crate::model::{answered, first_match, is_sorted, lemma_first_match, point_probe, point_probes, Guess, Outcome, SortingData};

verus! {

/// `r` is the floor of the square root of `n`.
pub open spec fn is_floor_sqrt(n: nat, r: nat) -> bool {
    r * r <= n && n < (r + 1) * (r + 1)
}

/// The largest `r` with `r * r <= n`.
pub open spec fn floor_sqrt(n: nat) -> nat {
    choose|r: nat| is_floor_sqrt(n, r)
}

/// What jump search yields from the block starting at `i` onwards, jumping
/// `step` positions at a time. A block start above the target sends the search
/// back over the preceding block, and the search ends there: on sorted values
/// the target can lie nowhere else.
pub open spec fn jump_blocks(s: Seq<i32>, t: i32, step: int, i: int) -> Outcome
    decreases s.len() + step - i,
{
    if step <= 0 || i < 0 || i >= s.len() {
        (None, Seq::empty())
    } else {
        let here = seq![point_probe(i)];
        if s[i] == t {
            (Some(i), here)
        } else if s[i] > t {
            let start = if i >= step { i - step } else { 0 };
            match first_match(s, t, start, i) {
                Some(x) => (Some(x), here + point_probes(start, x + 1)),
                None => (None, here + point_probes(start, i)),
            }
        } else {
            let rest = jump_blocks(s, t, step, i + step);
            (rest.0, here + rest.1)
        }
    }
}

/// What jump search yields over the whole sequence, with a step of the
/// floor of the square root of its length.
pub open spec fn jump_outcome(s: Seq<i32>, t: i32) -> Outcome {
    jump_blocks(s, t, floor_sqrt(s.len()) as int, 0)
}

/// Some block start holds a value no smaller than `t`, so that `t`, if present,
/// is not confined to the stretch after the last block start.
pub open spec fn reached_by_jumps(s: Seq<i32>, t: i32) -> bool {
    exists|b: int| 0 <= b < s.len() && b % (floor_sqrt(s.len()) as int) == 0 && t <= s[b]
}

proof fn lemma_le_div(a: int, n: int, d: int)
    requires
        0 <= a,
        0 <= n,
        0 < d,
    ensures
        a <= n / d <==> a * d <= n,
{
    lemma_fundamental_div_mod(n, d);
    lemma_mod_pos_bound(n, d);
    let q = n / d;
    let m = n % d;
    if a <= q {
        assert(a * d <= n) by (nonlinear_arith)
            requires a <= q, 0 < d, n == d * q + m, 0 <= m;
    } else {
        assert(a * d > n) by (nonlinear_arith)
            requires a >= q + 1, 0 < d, n == d * q + m, m < d;
    }
}

proof fn lemma_floor_sqrt_unique(n: nat, r: nat)
    requires
        r * r <= n < (r + 1) * (r + 1),
    ensures
        floor_sqrt(n) == r,
{
    assert(is_floor_sqrt(n, r));
    let q = floor_sqrt(n);
    assert(is_floor_sqrt(n, q));
    if q < r {
        assert((q + 1) * (q + 1) <= r * r) by (nonlinear_arith)
            requires q + 1 <= r;
    }
    if r < q {
        assert((r + 1) * (r + 1) <= q * q) by (nonlinear_arith)
            requires r + 1 <= q;
    }
}

/// The floor of the square root of `n`.
pub fn integer_sqrt(n: usize) -> (r: usize)
    ensures
        r as nat == floor_sqrt(n as nat),
        r * r <= n < (r + 1) * (r + 1),
{
    let mut r: usize = 0;
    while r + 1 <= n / (r + 1)
        invariant
            r * r <= n,
            r <= n,
            r < usize::MAX,
        decreases n - r,
    {
        proof {
            lemma_le_div(r + 1, n as int, r + 1);
            assert(r + 1 <= n && r + 1 < usize::MAX) by (nonlinear_arith)
                requires (r + 1) * (r + 1) <= n, n <= usize::MAX, usize::MAX >= 4;
        }
        r = r + 1;
    }
    proof {
        lemma_le_div(r + 1, n as int, r + 1);
        lemma_floor_sqrt_unique(n as nat, r as nat);
    }
    r
}

/// An index that jump search settles on holds the target.
pub proof fn lemma_jump_blocks_sound(s: Seq<i32>, t: i32, step: int, i: int)
    ensures
        jump_blocks(s, t, step, i).0 matches Some(x) ==> 0 <= x < s.len() && s[x] == t,
    decreases s.len() + step - i,
{
    if !(step <= 0 || i < 0 || i >= s.len()) && s[i] != t {
        let start = if i >= step { i - step } else { 0 };
        if s[i] > t {
            lemma_first_match(s, t, start, i);
        } else {
            lemma_jump_blocks_sound(s, t, step, i + step);
        }
    }
}

proof fn lemma_next_multiple(i: int, b: int, step: int)
    requires
        0 < step,
        0 <= i < b,
        i % step == 0,
        b % step == 0,
    ensures
        i + step <= b,
{
    lemma_fundamental_div_mod(i, step);
    lemma_fundamental_div_mod(b, step);
    let qi = i / step;
    let qb = b / step;
    assert(qi < qb) by (nonlinear_arith)
        requires i == step * qi, b == step * qb, i < b, 0 < step;
    assert(i + step <= b) by (nonlinear_arith)
        requires i == step * qi, b == step * qb, qi + 1 <= qb, 0 < step;
}

/// On sorted values, jump search from a block start `i` finds a present target
/// when the block before `i` lies below it and some block start from `i` on
/// holds a value no smaller than it.
pub proof fn lemma_jump_blocks_complete(s: Seq<i32>, t: i32, step: int, i: int)
    requires
        is_sorted(s),
        0 < step,
        0 <= i,
        i % step == 0,
        i >= step ==> s[i - step] < t,
        s.contains(t),
        exists|b: int| i <= b < s.len() && b % step == 0 && t <= s[b],
    ensures
        jump_blocks(s, t, step, i).0 is Some,
    decreases s.len() + step - i,
{
    let b = choose|b: int| i <= b < s.len() && b % step == 0 && t <= s[b];
    let k = choose|k: int| 0 <= k < s.len() && s[k] == t;
    if s[i] > t {
        let start = if i >= step { i - step } else { 0 };
        if i < step {
            lemma_small_mod(i as nat, step as nat);
        }
        if k >= i {
            assert(s[i] <= s[k]);
        }
        if k <= start && i >= step {
            assert(s[k] <= s[i - step]);
        }
        lemma_first_match(s, t, start, i);
    } else if s[i] < t {
        lemma_next_multiple(i, b, step);
        lemma_mod_add_multiples_vanish(i, step);
        lemma_jump_blocks_complete(s, t, step, i + step);
    }
}

proof fn lemma_div_step(a: int, step: int)
    requires
        0 <= a,
        0 < step,
    ensures
        (a + step) / step == a / step + 1,
        a / step >= 0,
{
    lemma_div_plus_one(a, step);
    lemma_fundamental_div_mod(a, step);
    lemma_mod_pos_bound(a, step);
    let q = a / step;
    let m = a % step;
    assert(q >= 0) by (nonlinear_arith)
        requires a == step * q + m, 0 <= a, m < step, 0 < step;
}

/// From block start `i`, jump search records at most one probe per block start
/// up to the end, plus one scan of at most `step` positions.
pub proof fn lemma_jump_blocks_length(s: Seq<i32>, t: i32, step: int, i: int)
    requires
        0 < step,
        0 <= i < s.len(),
    ensures
        jump_blocks(s, t, step, i).1.len() <= (s.len() - i + step - 1) / step + step,
    decreases s.len() - i,
{
    let a = s.len() - i - 1;
    lemma_div_step(a, step);
    assert(s.len() - i + step - 1 == a + step);
    if s[i] > t {
        let start = if i >= step { i - step } else { 0 };
        lemma_first_match(s, t, start, i);
    } else if s[i] < t && i + step < s.len() {
        lemma_jump_blocks_length(s, t, step, i + step);
        assert(s.len() - (i + step) + step - 1 == a);
    } else if s[i] < t {
        assert(jump_blocks(s, t, step, i + step).1.len() == 0);
    }
}

/// Jump search over `data.values`, which the caller keeps in non-decreasing
/// order (not checked). Probes block starts `0, step, 2 * step, ...` where
/// `step` is the floor of the square root of the length; a block start above
/// the target triggers a scan of the preceding block, after which the search
/// ends whether or not the scan found it. A target lying after the last block
/// start is never scanned for.
pub fn jump_search(data: SortingData) -> (r: SortingData)
    requires
        data.values@.len() <= i32::MAX,
    ensures
        r@ == answered(data@, jump_outcome(data@.values, data@.target)),
        r@.found matches Some(i) ==> 0 <= i < data@.values.len() && data@.values[i] == data@.target,
        !data@.values.contains(data@.target) ==> r@.found is None,
        is_sorted(data@.values) && data@.values.contains(data@.target) && reached_by_jumps(data@.values, data@.target)
            ==> r@.found is Some,
        data@.values.len() > 0 ==> r@.guesses.len() >= 1,
        data@.values.len() > 0 ==> ({
            let n = data@.values.len() as int;
            let step = floor_sqrt(n as nat) as int;
            r@.guesses.len() <= (n + step - 1) / step + step
        }),
{
    let len = data.values.len();
    let ghost s = data@.values;
    let ghost t = data.target;
    let step = integer_sqrt(len);
    let mut guesses: Vec<Guess> = Vec::new();
    let mut found: Option<usize> = None;
    let mut i: usize = 0;
    proof {
        if len > 0 {
            assert(step > 0) by (nonlinear_arith)
                requires step * step <= len, len < (step + 1) * (step + 1), len > 0;
        }
        assert(guesses@ + jump_blocks(s, t, step as int, 0).1 =~= jump_blocks(s, t, step as int, 0).1);
    }
    while i < len
        invariant_except_break
            found is None,
            jump_outcome(s, t) == (
                jump_blocks(s, t, step as int, i as int).0,
                guesses@ + jump_blocks(s, t, step as int, i as int).1,
            ),
        invariant
            s == data.values@,
            t == data.target,
            len == s.len(),
            len <= i32::MAX,
            i <= len,
            step as nat == floor_sqrt(len as nat),
            len > 0 ==> step > 0,
        ensures
            jump_outcome(s, t) == (
                match found {
                    Some(x) => Some(x as int),
                    None => None::<int>,
                },
                guesses@,
            ),
        decreases len - i,
    {
        let ghost before = guesses@;
        let ghost rest = jump_blocks(s, t, step as int, i as int);
        guesses.push(Guess { current_middle: i, current_low: i, current_high: i });
        let value = data.values[i];
        if value == data.target {
            assert(before + rest.1 =~= guesses@);
            found = Some(i);
            break;
        }
        if value > data.target {
            let start: usize = if i >= step { i - step } else { 0 };
            proof {
                lemma_first_match(s, t, start as int, i as int);
            }
            let hit = scan_block(&data.values, data.target, start, i, &mut guesses);
            match hit {
                Some(x) => {
                    assert(before + rest.1 =~= guesses@);
                    found = Some(x);
                    break;
                },
                None => {
                    assert(before + rest.1 =~= guesses@);
                    break;
                },
            }
        } else {
            assert(before + rest.1 =~= guesses@ + jump_blocks(s, t, step as int, i + step).1);
        }
        if len - i <= step {
            assert(jump_blocks(s, t, step as int, i + step).1 =~= Seq::<Guess>::empty());
            assert(jump_blocks(s, t, step as int, len as int).1 =~= Seq::<Guess>::empty());
            i = len;
        } else {
            i = i + step;
        }
    }
    proof {
        lemma_jump_blocks_sound(s, t, step as int, 0);
        if len > 0 {
            lemma_jump_blocks_length(s, t, step as int, 0);
        }
        if len == 0 {
            assert(guesses@ =~= Seq::<Guess>::empty());
        }
        if is_sorted(s) && s.contains(t) && reached_by_jumps(s, t) {
            lemma_small_mod(0, step as nat);
            lemma_jump_blocks_complete(s, t, step as int, 0);
        }
    }
    let target_found_index = match found {
        Some(x) => Some(x as i32),
        None => None,
    };
    SortingData { values: data.values, target: data.target, target_found_index, guesses }
}

} // verus!
