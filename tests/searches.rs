use search_trace::{binary_search, integer_sqrt, jump_search, linear_search, Guess, SortingData};

fn request(values: Vec<i32>, target: i32) -> SortingData {
    SortingData { values, target, target_found_index: None, guesses: Vec::new() }
}

fn at(low: usize, middle: usize, high: usize) -> Guess {
    Guess { current_middle: middle, current_low: low, current_high: high }
}

fn points(positions: &[usize]) -> Vec<Guess> {
    positions.iter().map(|&p| at(p, p, p)).collect()
}

#[test]
fn linear_finds_eight() {
    let r = linear_search(request(vec![5, 3, 8, 1], 8));
    assert_eq!(r.target_found_index, Some(2));
    assert_eq!(r.guesses, points(&[0, 1, 2]));
    assert_eq!(r.values, vec![5, 3, 8, 1]);
    assert_eq!(r.target, 8);
}

#[test]
fn linear_empty_input() {
    let r = linear_search(request(vec![], 5));
    assert_eq!(r.target_found_index, None);
    assert!(r.guesses.is_empty());
}

#[test]
fn linear_stops_at_first_occurrence() {
    let r = linear_search(request(vec![2, 7, 7, 4], 7));
    assert_eq!(r.target_found_index, Some(1));
    assert_eq!(r.guesses, points(&[0, 1]));
}

#[test]
fn linear_absent_scans_everything() {
    let r = linear_search(request(vec![9, -3, 4], 5));
    assert_eq!(r.target_found_index, None);
    assert_eq!(r.guesses, points(&[0, 1, 2]));
}

#[test]
fn linear_ignores_stale_response_fields() {
    let mut req = request(vec![1, 2, 3], 9);
    req.target_found_index = Some(0);
    req.guesses = points(&[5]);
    let r = linear_search(req);
    assert_eq!(r.target_found_index, None);
    assert_eq!(r.guesses, points(&[0, 1, 2]));
}

#[test]
fn binary_finds_seven() {
    let r = binary_search(request(vec![1, 3, 5, 7, 9], 7));
    assert_eq!(r.target_found_index, Some(3));
    assert_eq!(r.guesses, vec![at(0, 2, 4), at(0, 2, 4), at(3, 3, 4)]);
}

#[test]
fn binary_absent_four() {
    let r = binary_search(request(vec![1, 3, 5, 7, 9], 4));
    assert_eq!(r.target_found_index, None);
    assert_eq!(r.guesses, vec![at(0, 2, 4), at(0, 2, 4), at(0, 0, 1), at(1, 1, 1)]);
}

#[test]
fn binary_empty_input() {
    let r = binary_search(request(vec![], 4));
    assert_eq!(r.target_found_index, None);
    assert!(r.guesses.is_empty());
}

#[test]
fn binary_target_below_everything() {
    let r = binary_search(request(vec![5, 6, 7], 1));
    assert_eq!(r.target_found_index, None);
    assert_eq!(r.guesses, vec![at(0, 1, 2), at(0, 1, 2), at(0, 0, 0)]);
}

#[test]
fn binary_equal_keys() {
    let r = binary_search(request(vec![2, 2, 2, 2], 2));
    assert_eq!(r.target_found_index, Some(1));
    assert_eq!(r.guesses, vec![at(0, 1, 3), at(0, 1, 3)]);
}

#[test]
fn binary_finds_every_present_value_in_few_steps() {
    let values: Vec<i32> = (0..1000).map(|v| v * 2).collect();
    for (i, &v) in values.iter().enumerate() {
        let r = binary_search(request(values.clone(), v));
        assert_eq!(r.target_found_index, Some(i as i32));
        assert!(r.guesses.len() <= 11);
    }
    let r = binary_search(request(values.clone(), 7));
    assert_eq!(r.target_found_index, None);
    assert!(!r.guesses.is_empty());
}

#[test]
fn jump_finds_seven() {
    let r = jump_search(request(vec![1, 2, 3, 4, 5, 6, 7, 8, 9], 7));
    assert_eq!(r.target_found_index, Some(6));
    assert_eq!(r.guesses, points(&[0, 3, 6]));
}

#[test]
fn jump_scans_back_over_block() {
    let r = jump_search(request(vec![1, 2, 3, 4, 5, 6, 7, 8, 9], 5));
    assert_eq!(r.target_found_index, Some(4));
    assert_eq!(r.guesses, points(&[0, 3, 6, 3, 4]));
}

#[test]
fn jump_stops_after_missed_scan() {
    let r = jump_search(request(vec![10, 20, 30, 40, 50, 60, 70, 80, 90], 25));
    assert_eq!(r.target_found_index, None);
    assert_eq!(r.guesses, points(&[0, 3, 0, 1, 2]));
}

#[test]
fn jump_trace_stays_within_square_root_bound() {
    for n in 1..200usize {
        let values: Vec<i32> = (0..n as i32).map(|v| v * 2).collect();
        let step = integer_sqrt(n);
        let bound = (n + step - 1) / step + step;
        for target in -1..(2 * n as i32 + 1) {
            let r = jump_search(request(values.clone(), target));
            assert!(r.guesses.len() <= bound);
            if let Some(i) = r.target_found_index {
                assert_eq!(values[i as usize], target);
            }
        }
    }
}

#[test]
fn jump_misses_target_after_last_block_start() {
    let r = jump_search(request(vec![1, 2, 3, 4, 5, 6, 7, 8], 8));
    assert_eq!(r.target_found_index, None);
    assert_eq!(r.guesses, points(&[0, 2, 4, 6]));
}

#[test]
fn jump_empty_and_single() {
    let r = jump_search(request(vec![], 3));
    assert_eq!(r.target_found_index, None);
    assert!(r.guesses.is_empty());
    let r = jump_search(request(vec![3], 3));
    assert_eq!(r.target_found_index, Some(0));
    assert_eq!(r.guesses, points(&[0]));
}

#[test]
fn jump_absent_has_trace() {
    let r = jump_search(request(vec![1, 3, 5, 7], 4));
    assert_eq!(r.target_found_index, None);
    assert_eq!(r.guesses, points(&[0, 2, 0, 1]));
}

#[test]
fn searches_are_repeatable() {
    let values = vec![1, 4, 4, 9, 12, 15, 20];
    for target in [4, 9, 20, 3] {
        let a = linear_search(request(values.clone(), target));
        let b = linear_search(request(values.clone(), target));
        assert_eq!((a.target_found_index, a.guesses.clone()), (b.target_found_index, b.guesses.clone()));
        let again = linear_search(a);
        assert_eq!((again.target_found_index, again.guesses), (b.target_found_index, b.guesses));

        let a = binary_search(request(values.clone(), target));
        let b = binary_search(request(values.clone(), target));
        assert_eq!((a.target_found_index, a.guesses.clone()), (b.target_found_index, b.guesses.clone()));
        let again = binary_search(a);
        assert_eq!((again.target_found_index, again.guesses), (b.target_found_index, b.guesses));

        let a = jump_search(request(values.clone(), target));
        let b = jump_search(request(values.clone(), target));
        assert_eq!((a.target_found_index, a.guesses.clone()), (b.target_found_index, b.guesses.clone()));
        let again = jump_search(a);
        assert_eq!((again.target_found_index, again.guesses), (b.target_found_index, b.guesses));
    }
}

#[test]
fn absent_target_gives_no_index_but_a_trace() {
    let values = vec![2, 4, 6, 8, 10];
    for r in [
        linear_search(request(values.clone(), 5)),
        binary_search(request(values.clone(), 5)),
        jump_search(request(values.clone(), 5)),
    ] {
        assert_eq!(r.target_found_index, None);
        assert!(!r.guesses.is_empty());
    }
}

#[test]
fn integer_sqrt_values() {
    assert_eq!(integer_sqrt(0), 0);
    assert_eq!(integer_sqrt(1), 1);
    assert_eq!(integer_sqrt(3), 1);
    assert_eq!(integer_sqrt(4), 2);
    assert_eq!(integer_sqrt(8), 2);
    assert_eq!(integer_sqrt(9), 3);
    assert_eq!(integer_sqrt(1_000_000), 1000);
    assert_eq!(integer_sqrt(999_999), 999);
}
