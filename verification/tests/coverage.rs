use fillrect::FillRect;

#[test]
pub fn basic() {
    let fill_rect = FillRect::from(10, 100, 20, 110);
    assert_eq!(fill_rect.is_fill(10, 100, 20, 110), false);
}

#[test]
pub fn basic_fill_rect() {
    let mut fill_rect = FillRect::from(10, 100, 20, 110);
    fill_rect.fill_rect(14, 104, 16, 106);
    assert_eq!(fill_rect.is_fill(14, 104, 16, 106), true);
}

#[test]
pub fn get_open_rects() {
    let mut fill_rect = FillRect::from(10, 100, 20, 110);
    for x in vec![10, 11, 12, 13, 14] {
        fill_rect.fill_rect(x, 100, x + 1, 110);
    }
    assert_eq!(fill_rect.get_open_rects(), vec![(15, 100, 20, 110)]);
}

#[test]
pub fn test_sliver_on_end() {
    let mut fill_rect = FillRect::from(10, 100, 20, 110);
    fill_rect.fill_rect(10, 100, 16, 110);
    fill_rect.fill_rect(20, 100, 20, 110);
    fill_rect.fill_rect(20, 105, 22, 110);
    assert_eq!(fill_rect.get_open_rects(), vec![(16, 100, 20, 110)]);
}

#[test]
pub fn containment_window() {
    // the literal containment example: after filling the inner rectangle the
    // inner query is filled while the whole bounding box is not
    let mut fill_rect = FillRect::from(10, 100, 20, 110);
    fill_rect.fill_rect(14, 104, 16, 106);
    assert_eq!(fill_rect.is_fill(14, 104, 16, 106), true);
    assert_eq!(fill_rect.is_fill(10, 100, 20, 110), false);
}

#[test]
pub fn fill_is_never_undone() {
    let mut fill_rect = FillRect::from(10, 100, 20, 110);
    fill_rect.fill_rect(14, 104, 16, 106);
    assert_eq!(fill_rect.is_fill(14, 104, 16, 106), true);
    fill_rect.fill_rect(10, 100, 12, 102);
    fill_rect.fill_rect(18, 108, 20, 110);
    assert_eq!(fill_rect.is_fill(14, 104, 16, 106), true);
}

#[test]
pub fn reversed_axes_are_normalized() {
    let mut fill_rect = FillRect::from(10, 100, 20, 110);
    // both axes handed over reversed
    fill_rect.fill_rect(16, 106, 14, 104);
    assert_eq!(fill_rect.is_fill(14, 104, 16, 106), true);
}

#[test]
pub fn is_fill_point_states() {
    let mut fill_rect = FillRect::from(10, 100, 20, 110);
    fill_rect.fill_rect(14, 104, 16, 106);
    assert_eq!(fill_rect.is_fill_point(15, 105), true);
    assert_eq!(fill_rect.is_fill_point(11, 101), false);
    // outside the bounding rectangle counts as filled
    assert_eq!(fill_rect.is_fill_point(5, 105), true);
    // inside the column but above the tracked y span: never classified
    assert_eq!(fill_rect.is_fill_point(15, 115), true);
}

#[test]
pub fn is_fill_padding_clearance() {
    let mut fill_rect = FillRect::from(10, 100, 20, 110);
    fill_rect.fill_rect(12, 102, 18, 108);
    // the inner region alone is filled
    assert_eq!(fill_rect.is_fill(13, 103, 17, 107), true);
    // a clearance of one pushes the window into unfilled territory: still ok
    assert_eq!(fill_rect.is_fill_padding(13, 103, 17, 107, 1, 1), true);
    // a clearance of two reaches the unfilled border
    assert_eq!(fill_rect.is_fill_padding(13, 103, 17, 107, 2, 2), false);
}

#[test]
pub fn biggest_block_values() {
    let mut fill_rect = FillRect::from(10, 100, 20, 110);
    assert_eq!(fill_rect.biggest_unfilled_area_block(10, 100, 20, 110), 100);
    fill_rect.fill_rect(10, 100, 20, 105);
    assert_eq!(fill_rect.biggest_unfilled_area_block(10, 100, 20, 110), 50);
    assert_eq!(fill_rect.biggest_unfilled_area_block(10, 100, 15, 110), 25);
    fill_rect.fill_rect(10, 100, 20, 110);
    assert_eq!(fill_rect.biggest_unfilled_area_block(10, 100, 20, 110), 0);
}

#[test]
pub fn biggest_block_padding_values() {
    let mut fill_rect = FillRect::from(10, 100, 20, 110);
    fill_rect.fill_rect(10, 100, 20, 105);
    // reversed window, normalized, then expanded by one on each side
    assert_eq!(
        fill_rect.biggest_unfilled_area_block_padding(20, 110, 10, 100, -1, -1),
        8 * 4
    );
}

#[test]
pub fn fit_query_values() {
    let mut fill_rect = FillRect::from(10, 100, 20, 110);
    fill_rect.fill_rect(10, 100, 20, 105);
    // the remaining open block is 10 wide and 5 tall
    assert_eq!(
        fill_rect.contains_unfilled_rect_width_height(10, 100, 20, 110, 9, 4),
        true
    );
    assert_eq!(
        fill_rect.contains_unfilled_rect_width_height(10, 100, 20, 110, 10, 4),
        false
    );
    assert_eq!(
        fill_rect.contains_unfilled_rect_width_height(10, 100, 20, 110, 9, 5),
        false
    );
    assert_eq!(
        fill_rect.contains_unfilled_rect_width_height_padding(10, 100, 20, 110, 9, 4, 0, 0),
        true
    );
}

#[test]
pub fn fit_query_matches_biggest_block() {
    // cross-check of the two independently implemented scans
    let mut fill_rect = FillRect::from(0, 0, 30, 30);
    fill_rect.fill_rect(0, 0, 30, 20);
    fill_rect.fill_rect(0, 20, 12, 30);
    let biggest = fill_rect.biggest_unfilled_area_block(0, 0, 30, 30);
    assert_eq!(biggest, 18 * 10);
    assert_eq!(fill_rect.contains_unfilled_rect_width_height(0, 0, 30, 30, 17, 9), true);
    assert_eq!(fill_rect.contains_unfilled_rect_width_height(0, 0, 30, 30, 18, 9), false);
    assert!(biggest >= (17 + 1) * (9 + 1));
}

#[test]
pub fn degenerate_slivers_leave_no_open_rects() {
    let mut fill_rect = FillRect::from(10, 100, 20, 110);
    fill_rect.fill_rect(10, 100, 20, 110);
    // zero-width and zero-height slivers at shared boundaries
    fill_rect.fill_rect(15, 100, 15, 110);
    fill_rect.fill_rect(10, 105, 20, 105);
    assert_eq!(fill_rect.get_open_rects(), Vec::<(i32, i32, i32, i32)>::new());
}

#[test]
pub fn get_ys_reports_column_breakpoints() {
    let mut fill_rect = FillRect::from(10, 100, 20, 110);
    fill_rect.fill_rect(10, 104, 20, 106);
    assert_eq!(fill_rect.get_ys(15).cloned(), Some(vec![100, 104, 106, 110]));
    assert_eq!(fill_rect.get_ys(25).cloned(), None);
}

#[test]
pub fn unit_strips_cover_band() {
    let mut fill_rect = FillRect::from(10, 100, 20, 110);
    for x in vec![10, 11, 12, 13, 14, 15, 16, 17, 18, 19, 20] {
        fill_rect.fill_rect(x, 104, x + 1, 106);
    }
    // the strips tile the whole band of the bounding rectangle
    assert_eq!(fill_rect.is_fill(10, 104, 20, 106), true);
    assert_eq!(fill_rect.is_fill(10, 104, 16, 106), true);
    // below the band the rectangle is still open
    assert_eq!(fill_rect.is_fill(10, 100, 16, 106), false);
}

#[test]
pub fn biggest_block_can_grow_when_columns_merge() {
    // the largest-block scan measures maximal stored blocks: a fill that
    // makes two neighbouring columns equal merges them, so the largest
    // single block may grow even though the unfilled cells only shrink
    let mut fill_rect = FillRect::from(0, 0, 10, 20);
    fill_rect.fill_rect(0, 10, 9, 20);
    assert_eq!(fill_rect.biggest_unfilled_area_block(0, 0, 10, 20), 90);
    fill_rect.fill_rect(9, 10, 10, 20);
    assert_eq!(fill_rect.biggest_unfilled_area_block(0, 0, 10, 20), 100);
}

#[test]
pub fn fill_rect_twice_same_structure() {
    let mut once = FillRect::from(10, 100, 20, 110);
    once.fill_rect(12, 102, 18, 108);
    let mut twice = FillRect::from(10, 100, 20, 110);
    twice.fill_rect(12, 102, 18, 108);
    twice.fill_rect(12, 102, 18, 108);
    assert_eq!(once.get_open_rects(), twice.get_open_rects());
    assert_eq!(once.get_ys(15).cloned(), twice.get_ys(15).cloned());
}

#[test]
pub fn fully_outside_queries_are_conservative() {
    let mut fill_rect = FillRect::from(10, 100, 20, 110);
    fill_rect.fill_rect(10, 100, 20, 110);
    // x windows entirely outside the tracked columns: conservatively open
    assert_eq!(fill_rect.is_fill(0, 0, 5, 5), false);
    assert_eq!(fill_rect.is_fill(25, 100, 30, 110), false);
    assert_eq!(fill_rect.is_fill_padding(0, 0, 5, 5, 0, 0), false);
    // outside only in y: the columns exist and hold no unfilled cell
    assert_eq!(fill_rect.is_fill(10, 0, 20, 5), true);
    // a window that straddles the boundary is judged by its tracked cells
    assert_eq!(fill_rect.is_fill(15, 100, 30, 110), true);
}
