use bitcoin_pro::ranges::{IndexRange, IndexRangeSet, RangeError, HARDENED_INDEX_BOUNDARY};

fn collect(set: &IndexRangeSet) -> Vec<u32> {
    let mut it = set.iter();
    let mut out = Vec::new();
    while let Some(i) = it.next() {
        out.push(i);
    }
    out
}

#[test]
fn parse_bounds_and_iteration() {
    let set = IndexRangeSet::parse("0,2-4,10").unwrap();
    assert_eq!(set.bounds(), (0, 10));
    assert_eq!(set.first_index(), 0);
    assert_eq!(set.last_index(), 10);
    assert_eq!(collect(&set), vec![0, 2, 3, 4, 10]);
    assert_eq!(set.count(), 5);
}

#[test]
fn iteration_restarts_from_the_beginning() {
    let set = IndexRangeSet::parse("5-6").unwrap();
    assert_eq!(collect(&set), vec![5, 6]);
    assert_eq!(collect(&set), vec![5, 6]);
}

#[test]
fn overlapping_ranges_keep_repeats_and_order() {
    let set = IndexRangeSet::parse("7, 1-3 ,2").unwrap();
    assert_eq!(collect(&set), vec![7, 1, 2, 3, 2]);
    assert_eq!(set.bounds(), (1, 7));
    assert_eq!(set.count(), 5);
}

#[test]
fn iteration_stays_within_bounds_and_counts_sizes() {
    let set = IndexRangeSet::parse("12-15,3,40-41,9").unwrap();
    let (lo, hi) = set.bounds();
    let all = collect(&set);
    assert!(all.iter().all(|i| lo <= *i && *i <= hi));
    assert_eq!(all.len() as u128, set.count());
    assert_eq!(set.count(), 4 + 1 + 2 + 1);
}

#[test]
fn text_round_trip() {
    let set = IndexRangeSet::parse(" 0 ,2-4,10,10-12").unwrap();
    let text = set.to_text();
    assert_eq!(text, "0,2-4,10,10-12");
    assert_eq!(IndexRangeSet::parse(&text).unwrap(), set);
}

#[test]
fn round_trip_of_built_set() {
    let set = IndexRangeSet::new(vec![
        IndexRange::new(3, 3).unwrap(),
        IndexRange::new(0, 2147483647).unwrap(),
    ])
    .unwrap();
    assert_eq!(set.to_text(), "3,0-2147483647");
    assert_eq!(IndexRangeSet::parse(&set.to_text()).unwrap(), set);
}

#[test]
fn contains_checks_every_range() {
    let set = IndexRangeSet::parse("0,2-4,10").unwrap();
    assert!(set.contains(3));
    assert!(set.contains(10));
    assert!(!set.contains(1));
    assert!(!set.contains(11));
}

#[test]
fn plus_sign_is_read_as_a_number_prefix() {
    let set = IndexRangeSet::parse("+5").unwrap();
    assert_eq!(collect(&set), vec![5]);
}

#[test]
fn blank_text_is_not_a_range() {
    assert_eq!(IndexRangeSet::parse(""), Err(RangeError::RangeNotSpecified));
    assert_eq!(IndexRangeSet::parse("  \t"), Err(RangeError::RangeNotSpecified));
}

#[test]
fn empty_token_is_reported_with_its_position() {
    assert_eq!(IndexRangeSet::parse("1,,2"), Err(RangeError::EmptyRange(1)));
    assert_eq!(IndexRangeSet::parse("1, "), Err(RangeError::EmptyRange(1)));
}

#[test]
fn non_numeric_bound_is_reported() {
    assert_eq!(
        IndexRangeSet::parse("1,x"),
        Err(RangeError::WrongIndexNumber("x".to_string(), 1))
    );
    assert_eq!(
        IndexRangeSet::parse("4-y"),
        Err(RangeError::WrongIndexNumber("y".to_string(), 0))
    );
    assert_eq!(
        IndexRangeSet::parse("0 - 2"),
        Err(RangeError::WrongIndexNumber("0 ".to_string(), 0))
    );
}

#[test]
fn hardened_index_is_rejected() {
    assert_eq!(
        IndexRangeSet::parse("2147483648"),
        Err(RangeError::WrongIndexNumber("2147483648".to_string(), 0))
    );
    assert_eq!(
        IndexRangeSet::parse("99999999999"),
        Err(RangeError::WrongIndexNumber("99999999999".to_string(), 0))
    );
    assert_eq!(HARDENED_INDEX_BOUNDARY, 2147483648);
}

#[test]
fn malformed_range_is_reported() {
    assert_eq!(
        IndexRangeSet::parse("1-2-3"),
        Err(RangeError::WrongRange("1-2-3".to_string(), 0))
    );
    assert_eq!(
        IndexRangeSet::parse("0, 5-2"),
        Err(RangeError::WrongRange(" 5-2".to_string(), 1))
    );
}

#[test]
fn range_constructor_checks_order_and_boundary() {
    assert!(IndexRange::new(2, 1).is_none());
    assert!(IndexRange::new(0, HARDENED_INDEX_BOUNDARY).is_none());
    assert_eq!(IndexRange::new(1, 2), Some(IndexRange { lo: 1, hi: 2 }));
    assert!(IndexRangeSet::new(vec![]).is_none());
    assert!(IndexRangeSet::new(vec![IndexRange { lo: 3, hi: 1 }]).is_none());
}
