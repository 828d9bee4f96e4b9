use roaring::RoaringTreemap;
use squadro::ordered::treemap_next_value;

#[test]
fn next_value_at_or_after() {
    let values = [3, 14, 15, 1 << 32, (1 << 32) + 7, 5 << 33, u64::MAX - 1];
    let treemap = RoaringTreemap::from_sorted_iter(values).unwrap();

    assert_eq!(treemap_next_value(&treemap, 0), Some(3));
    assert_eq!(treemap_next_value(&treemap, 3), Some(3));
    assert_eq!(treemap_next_value(&treemap, 4), Some(14));
    assert_eq!(treemap_next_value(&treemap, 15), Some(15));
    assert_eq!(treemap_next_value(&treemap, 16), Some(1 << 32));
    assert_eq!(treemap_next_value(&treemap, (1 << 32) + 1), Some((1 << 32) + 7));
    assert_eq!(treemap_next_value(&treemap, (1 << 32) + 8), Some(5 << 33));
    assert_eq!(treemap_next_value(&treemap, (5 << 33) + 1), Some(u64::MAX - 1));
    assert_eq!(treemap_next_value(&treemap, u64::MAX - 1), Some(u64::MAX - 1));
    assert_eq!(treemap_next_value(&treemap, u64::MAX), None);

    assert_eq!(treemap_next_value(&RoaringTreemap::new(), 0), None);

    // Walking from each value to the one after it visits them all, in order.
    let mut walked = Vec::new();
    let mut next = treemap_next_value(&treemap, 0);
    while let Some(value) = next {
        walked.push(value);
        next = treemap_next_value(&treemap, value + 1);
    }
    assert_eq!(walked, values);
}

#[test]
fn next_value_after_changes() {
    let mut treemap = RoaringTreemap::new();
    treemap.insert(10);
    treemap.insert(20);
    assert_eq!(treemap_next_value(&treemap, 11), Some(20));

    treemap.insert(12);
    assert_eq!(treemap_next_value(&treemap, 11), Some(12));

    treemap.remove(12);
    treemap.remove(20);
    assert_eq!(treemap_next_value(&treemap, 11), None);
    assert_eq!(treemap_next_value(&treemap, 10), Some(10));
}
