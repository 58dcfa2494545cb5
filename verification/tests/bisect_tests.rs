use budoux_mod2::bisect::{bisect_first_true, bisect_last_true};

#[test]
fn last_true_finds_the_end_of_a_true_prefix() {
    assert_eq!(bisect_last_true(0, 10, |i| i < 4), Some(3));
    assert_eq!(bisect_last_true(0, 10, |i| i < 10), Some(9));
    assert_eq!(bisect_last_true(0, 10, |_| false), None);
    assert_eq!(bisect_last_true(3, 8, |i| i < 5), Some(4));
}

#[test]
fn last_true_of_an_empty_range_looks_before_it() {
    assert_eq!(bisect_last_true(0, 0, |_| true), None);
    assert_eq!(bisect_last_true(5, 5, |_| true), Some(4));
}

#[test]
fn first_true_never_finds_an_index() {
    assert_eq!(bisect_first_true(0, 10, |i| i >= 3), None);
    assert_eq!(bisect_first_true(0, 10, |_| true), None);
    assert_eq!(bisect_first_true(0, 0, |_| true), None);
}

#[test]
fn first_true_asks_only_inside_the_range_and_a_few_times() {
    for (low, high) in [(0usize, 1usize), (0, 10), (3, 1000), (7, 7), (9, 4)] {
        let asked = std::cell::RefCell::new(Vec::new());
        let f = |i: usize| {
            asked.borrow_mut().push(i);
            i % 3 == 0
        };
        assert_eq!(bisect_first_true(low, high, f), None);
        let asked = asked.into_inner();
        assert!(asked.iter().all(|&i| low <= i && i < high));
        let n = high.saturating_sub(low);
        let halvings = if n == 0 { 0 } else { (usize::BITS - n.leading_zeros()) as usize };
        assert!(asked.len() <= halvings, "{low}..{high}: {} asks", asked.len());
    }
}

#[test]
fn last_true_asks_inside_the_range_and_a_few_times() {
    for (low, high) in [(0usize, 1usize), (0, 10), (3, 1000), (7, 7), (9, 4)] {
        let asked = std::cell::RefCell::new(Vec::new());
        let f = |i: usize| {
            asked.borrow_mut().push(i);
            i < 5
        };
        bisect_last_true(low, high, f);
        let asked = asked.into_inner();
        let n = high.saturating_sub(low);
        let halvings = if n == 0 { 0 } else { (usize::BITS - n.leading_zeros()) as usize };
        // The search itself asks inside the range; the one read-off after it
        // asks just below where it stopped.
        let (search, read_off) = asked.split_at(asked.len().saturating_sub(1));
        assert!(search.iter().all(|&i| low <= i && i < high));
        assert!(read_off.iter().all(|&i| i + 1 >= low && i < high.max(low)));
        assert!(asked.len() <= halvings + 1, "{low}..{high}: {} asks", asked.len());
    }
}
