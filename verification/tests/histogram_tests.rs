use immixcons::constants;
use immixcons::histogram::Histogram;

#[test]
fn test_pop_top_takes_most_holes_last_pushed() {
    let mut h = Histogram::new();
    h.push_block(3, 100);
    h.push_block(5, 200);
    h.push_block(5, 300);
    h.push_block(1, 400);
    assert_eq!(h.pop_top(), Some(300));
    assert_eq!(h.pop_top(), Some(200));
    assert_eq!(h.pop_top(), Some(100));
    assert_eq!(h.pop_top(), Some(400));
    assert_eq!(h.pop_top(), None);
}

#[test]
fn test_drain_empty_blocks() {
    let mut h = Histogram::new();
    h.push_block(constants::LINE_COUNT, 1);
    h.push_block(7, 2);
    h.push_block(constants::LINE_COUNT, 3);
    let drained = h.drain_empty_blocks();
    assert_eq!(drained, vec![1, 3]);
    // the emptied entry stays, and is the top entry: popping it yields
    // nothing and removes it
    assert_eq!(h.pop_top(), None);
    assert_eq!(h.pop_top(), Some(2));
    assert_eq!(h.pop_top(), None);
}

#[test]
fn test_drain_when_no_empty_blocks() {
    let mut h = Histogram::new();
    h.push_block(4, 9);
    assert!(h.drain_empty_blocks().is_empty());
    assert_eq!(h.pop_top(), None);
    assert_eq!(h.pop_top(), Some(9));
}

#[test]
fn test_clear() {
    let mut h = Histogram::new();
    h.push_block(4, 9);
    h.push_block(8, 10);
    h.clear();
    assert_eq!(h.pop_top(), None);
}
