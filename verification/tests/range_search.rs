use binary_range_search::search_by;

fn lt(x: &u8, k: &u8) -> bool {
    x < k
}

fn sorted(n: u8) -> Vec<u8> {
    (0..n).collect()
}

#[test]
fn empty_input_empty_range() {
    assert!(search_by(&[0_u8; 0], 0..0_u8, lt).is_empty());
}

#[test]
fn empty_input_any_range() {
    assert!(search_by(&[0_u8; 0], 3..9_u8, lt).is_empty());
    assert!(search_by(&[0_u8; 0], 9..3_u8, lt).is_empty());
}

#[test]
fn singleton_below_range() {
    assert!(search_by(&[0_u8], 1..2, lt).is_empty());
}

#[test]
fn singleton_inside_range() {
    assert_eq!(&[1], search_by(&[1_u8], 0..2, lt));
}

#[test]
fn singleton_at_start_is_included() {
    assert_eq!(&[1], search_by(&[1_u8], 1..2, lt));
}

#[test]
fn singleton_at_end_is_excluded() {
    assert!(search_by(&[1_u8], 0..1, lt).is_empty());
}

#[test]
fn interior_run() {
    assert_eq!(&[5, 6], search_by(&sorted(10), 5..7, lt));
}

#[test]
fn run_at_front() {
    assert_eq!(&[0], search_by(&sorted(10), 0..1, lt));
}

#[test]
fn run_at_back() {
    assert_eq!(&[9], search_by(&sorted(10), 9..11, lt));
}

#[test]
fn range_below_minimum() {
    let ts: Vec<u8> = vec![10, 20, 30];
    assert!(search_by(&ts, 0..10, lt).is_empty());
}

#[test]
fn range_above_maximum() {
    let ts: Vec<u8> = vec![10, 20, 30];
    assert!(search_by(&ts, 31..99, lt).is_empty());
}

#[test]
fn range_in_gap_between_elements() {
    let ts: Vec<u8> = vec![10, 20, 30];
    assert!(search_by(&ts, 11..20, lt).is_empty());
}

#[test]
fn empty_range_on_nonempty_input() {
    assert!(search_by(&sorted(10), 4..4, lt).is_empty());
}

#[test]
fn inverted_range_is_empty() {
    assert!(search_by(&sorted(10), 7..5, lt).is_empty());
}

#[test]
fn whole_slice_covered() {
    let ts = sorted(10);
    assert_eq!(ts.as_slice(), search_by(&ts, 0..10, lt));
    assert_eq!(ts.as_slice(), search_by(&ts, 0..255, lt));
}

#[test]
fn boundaries_are_half_open() {
    // Equality at the start is included, equality at the end is excluded.
    assert_eq!(&[3, 4], search_by(&sorted(10), 3..5, lt));
}

#[test]
fn equal_keys_are_all_returned() {
    let ts: Vec<u8> = vec![1, 4, 4, 4, 7];
    assert_eq!(&[4, 4, 4], search_by(&ts, 4..5, lt));
    assert_eq!(&[1], search_by(&ts, 0..4, lt));
    assert_eq!(&[4, 4, 4, 7], search_by(&ts, 4..8, lt));
}

#[test]
fn result_is_contiguous_window_of_input() {
    let ts = sorted(100);
    let res = search_by(&ts, 23..42, lt);
    assert_eq!(&ts[23..42], res);
    for (offset, elem) in res.iter().enumerate() {
        assert_eq!(ts[23 + offset], *elem);
    }
}

#[test]
fn repeated_search_returns_identical_view() {
    let ts = sorted(100);
    let first = search_by(&ts, 17..61, lt);
    let second = search_by(&ts, 17..61, lt);
    assert_eq!(first, second);
    assert_eq!(first.len(), second.len());
}

#[test]
fn large_even_and_odd_lengths() {
    for n in 0..24_u8 {
        let ts = sorted(n);
        for start in 0..26_u8 {
            for end in 0..26_u8 {
                let res = search_by(&ts, start..end, lt);
                let expected: Vec<u8> =
                    (0..n).filter(|x| start <= *x && *x < end).collect();
                assert_eq!(expected.as_slice(), res);
            }
        }
    }
}

#[test]
fn heterogeneous_element_and_key_types() {
    // Records searched by their numeric key: the element and key types
    // differ, and only the injected comparison relates them.
    let records: Vec<(u32, &str)> =
        vec![(2, "two"), (3, "three"), (5, "five"), (8, "eight"), (13, "thirteen")];
    let by_key = |record: &(u32, &str), key: &u32| record.0 < *key;
    let res = search_by(&records, 3..9, by_key);
    assert_eq!(&[(3, "three"), (5, "five"), (8, "eight")], res);
}
