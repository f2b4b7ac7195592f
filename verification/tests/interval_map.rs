use fillrect::RangeFill;
use fillrect::RangeMap;

#[test]
fn it_works() {
    let result: usize = fillrect::add(2, 2);
    assert_eq!(result, 4);
}

fn map_values(map: &RangeMap<bool>) -> Vec<bool> {
    map.data().into_iter().map(|t| t.0).collect()
}

#[test]
pub fn range_map_test_basic() {
    let mut range = RangeMap::from(true);
    range.set(false, 10, 20);
    assert_eq!(range.get_ranges().clone(), vec![10, 20]);
    assert_eq!(map_values(&range), vec![false]);
    assert_eq!(*range.default_value(), true);
    assert_eq!(*range.value_range(-1, 9), true);
    assert_eq!(*range.value_range(-1, 10), true);
    assert_eq!(*range.value_range(10, 20), false);
    assert_eq!(*range.value_range(15, 16), false);
    assert_eq!(*range.value_range(20, 25), true);
    assert_eq!(*range.value_range(21, 25), true);
}

#[test]
pub fn range_map_test_simple_fill() {
    let mut range = RangeMap::from(true);
    range.set(false, 10, 20);
    range.set(false, 11, 12);
    assert_eq!(range.get_ranges().clone(), vec![10, 20]);
    assert_eq!(map_values(&range), vec![false]);

    range.set(true, 11, 12);
    assert_eq!(map_values(&range), vec![false, true, false]);
    assert_eq!(range.get_ranges().clone(), vec![10, 11, 12, 20]);
    assert_eq!(*range.value_range(11, 12), true);

    range.set(true, 13, 14);
    assert_eq!(map_values(&range), vec![false, true, false, true, false]);
    assert_eq!(range.get_ranges().clone(), vec![10, 11, 12, 13, 14, 20]);
    assert_eq!(*range.value_range(13, 14), true);

    range.set(true, 15, 16);
    assert_eq!(*range.value_range(15, 16), true);

    range.set(true, 17, 18);
    assert_eq!(*range.value_range(17, 18), true);
    assert_eq!(range.get_ranges().clone(), vec![10, 11, 12, 13, 14, 15, 16, 17, 18, 20]);
    assert_eq!(
        map_values(&range),
        vec![false, true, false, true, false, true, false, true, false]
    );
}

#[test]
pub fn range_map_test_multiple_fills() {
    // boundary values spaced by ten so that every midpoint is a
    // whole key
    let mut range = RangeMap::from(true);
    range.set(false, 100, 200);

    range.set(true, 110, 120);
    range.set(true, 130, 140);
    range.set(true, 150, 160);
    range.set(true, 170, 180);
    assert_eq!(
        range.get_ranges().clone(),
        vec![100, 110, 120, 130, 140, 150, 160, 170, 180, 200]
    );
    assert_eq!(
        map_values(&range),
        vec![false, true, false, true, false, true, false, true, false]
    );

    // fill from inside one open range up to inside a filled one
    range.set(true, 105, 155);
    assert_eq!(range.get_ranges().clone(), vec![100, 105, 160, 170, 180, 200]);
    assert_eq!(map_values(&range), vec![false, true, false, true, false]);

    // fill starting exactly at a filled range's start
    range.set(true, 150, 165);
    assert_eq!(range.get_ranges().clone(), vec![100, 105, 165, 170, 180, 200]);

    // fill between two filled ranges
    range.set(true, 169, 185);
    assert_eq!(range.get_ranges().clone(), vec![100, 105, 165, 169, 185, 200]);

    // fill exactly from one boundary to another
    range.set(true, 120, 180);
    assert_eq!(range.get_ranges().clone(), vec![100, 105, 185, 200]);
    assert_eq!(map_values(&range), vec![false, true, false]);

    // fill from before the span up to a boundary
    range.set(true, 0, 180);
    assert_eq!(range.get_ranges().clone(), vec![185, 200]);
    assert_eq!(map_values(&range), vec![false]);

    // fill over the whole span
    range.set(true, 0, 250);
    assert_eq!(range.get_ranges().clone(), Vec::<i32>::new());
    assert_eq!(map_values(&range), Vec::<bool>::new());
}

#[test]
pub fn range_map_set_is_idempotent() {
    let mut once = RangeMap::from(false);
    once.set(true, 3, 12);
    once.set(false, 5, 9);
    let mut twice = RangeMap::from(false);
    twice.set(true, 3, 12);
    twice.set(false, 5, 9);
    twice.set(false, 5, 9);
    assert_eq!(once.get_ranges().clone(), twice.get_ranges().clone());
    assert_eq!(map_values(&once), map_values(&twice));
}

#[test]
pub fn range_map_degenerate_and_default_writes() {
    let mut range = RangeMap::from(true);
    range.set(true, 10, 20);
    assert_eq!(range.get_ranges().clone(), Vec::<i32>::new());
    range.set(false, 10, 20);
    range.set(false, 15, 15);
    assert_eq!(range.get_ranges().clone(), vec![10, 20]);
    range.set(true, 0, 10);
    assert_eq!(range.get_ranges().clone(), vec![10, 20]);
}

#[test]
pub fn range_map_value_lookups() {
    let mut range = RangeMap::from(true);
    range.set(false, 10, 20);
    assert_eq!(*range.value(9), true);
    assert_eq!(*range.value(10), false);
    assert_eq!(*range.value(19), false);
    assert_eq!(*range.value(20), true);
    assert_eq!(*range.value_address(&15), false);
    let touched: Vec<bool> = range.values(5, 15);
    assert_eq!(touched, vec![false]);
    let triples = range.data_range(15, 25);
    assert_eq!(triples.len(), 1);
    assert_eq!((triples[0].0, triples[0].1, triples[0].2), (false, 15, 20));
}

#[test]
pub fn range_fill_test_basic() {
    let range = RangeFill::from(10, 20);
    assert_eq!(range.contains_unfilled(-1, 9), false);
    assert_eq!(range.contains_unfilled(-1, 10), false);
    assert_eq!(range.contains_unfilled(10, 20), true);
    assert_eq!(range.contains_unfilled(15, 16), true);
    assert_eq!(range.contains_unfilled(20, 25), true);
    assert_eq!(range.contains_unfilled(21, 25), false);
}

#[test]
pub fn range_fill_test_simple_fill() {
    let mut range = RangeFill::from(10, 20);

    range.fill(11, 12);
    assert_eq!(range.contains_unfilled(11, 12), false);

    range.fill(13, 14);
    assert_eq!(range.contains_unfilled(13, 14), false);
    assert_eq!(range.get_fill().clone(), vec![10, 11, 12, 13, 14, 20]);

    range.fill(15, 16);
    assert_eq!(range.contains_unfilled(15, 16), false);

    range.fill(17, 18);
    assert_eq!(range.contains_unfilled(17, 18), false);
    assert_eq!(range.get_fill().clone(), vec![10, 11, 12, 13, 14, 15, 16, 17, 18, 20]);
}

#[test]
pub fn range_fill_test_multiple_fills() {
    // boundary values spaced by ten so that every midpoint is a
    // whole key
    let mut range = RangeFill::from(100, 200);

    range.fill(110, 120);
    range.fill(130, 140);
    range.fill(150, 160);
    range.fill(170, 180);
    assert_eq!(
        range.get_fill().clone(),
        vec![100, 110, 120, 130, 140, 150, 160, 170, 180, 200]
    );

    range.fill(105, 155);
    assert_eq!(range.get_fill().clone(), vec![100, 105, 160, 170, 180, 200]);

    range.fill(150, 165);
    assert_eq!(range.get_fill().clone(), vec![100, 105, 165, 170, 180, 200]);

    range.fill(169, 185);
    assert_eq!(range.get_fill().clone(), vec![100, 105, 165, 169, 185, 200]);

    range.fill(120, 180);
    assert_eq!(range.get_fill().clone(), vec![100, 105, 185, 200]);

    range.fill(0, 180);
    assert_eq!(range.get_fill().clone(), vec![185, 200]);

    range.fill(0, 250);
    assert_eq!(range.get_fill().clone(), Vec::<i32>::new());
}
