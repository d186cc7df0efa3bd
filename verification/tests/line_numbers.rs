use code_chunks::ripgrep_lines::{get_fileline_numbers, process_line_numbers, SortedLineNumbers};

#[test]
fn new_list_is_empty() {
    let lines = SortedLineNumbers::new();
    assert!(lines.get_lines().is_empty());
    assert_eq!(lines.to_vec(), Vec::<usize>::new());
}

#[test]
fn from_vec_sorts_lines() {
    let lines = SortedLineNumbers::from_vec(vec![30, 10, 20, 10]);
    assert_eq!(lines.to_vec(), vec![10, 10, 20, 30]);
    assert_eq!(lines.get_lines(), &vec![10, 10, 20, 30]);
}

#[test]
fn filter_drops_lines_between_close_neighbours() {
    let mut lines = SortedLineNumbers::from_vec(vec![0, 10, 20, 100, 130, 160, 300]);
    let filtered = lines.filter_line_intervals();
    assert_eq!(filtered.to_vec(), vec![0, 20, 100, 130, 160, 300]);
    assert_eq!(lines.to_vec(), vec![0, 20, 100, 130, 160, 300]);
}

#[test]
fn filter_sorts_first_and_keeps_the_ends() {
    let mut lines = SortedLineNumbers::from_vec(vec![5, 1, 3, 2]);
    let filtered = lines.filter_line_intervals();
    assert_eq!(filtered.to_vec(), vec![1, 5]);
}

#[test]
fn filter_of_short_lists_keeps_them() {
    let mut lines = SortedLineNumbers::from_vec(vec![7, 3]);
    assert_eq!(lines.filter_line_intervals().to_vec(), vec![3, 7]);
    let mut empty = SortedLineNumbers::new();
    assert_eq!(empty.filter_line_intervals().to_vec(), Vec::<usize>::new());
}

#[test]
fn filtering_twice_changes_nothing() {
    let mut lines = SortedLineNumbers::from_vec(vec![0, 4, 9, 40, 45, 61, 90, 200, 210, 220, 400]);
    let once = lines.filter_line_intervals().to_vec();
    let mut again = SortedLineNumbers::from_vec(once.clone());
    assert_eq!(again.filter_line_intervals().to_vec(), once);
    for k in 0..once.len().saturating_sub(2) {
        assert!(once[k + 2] - once[k] > 50);
    }
}

#[test]
fn merge_puts_window_lines_after_wide_pairs() {
    let mut lines = SortedLineNumbers::from_vec(vec![0, 100, 120, 300]);
    let other = SortedLineNumbers::from_vec(vec![0, 40, 100, 150, 200, 260, 400]);
    lines.merge(other);
    assert_eq!(lines.to_vec(), vec![0, 100, 40, 100, 100, 120, 120, 300, 150, 200, 260]);
}

#[test]
fn merge_writes_every_pair() {
    let mut lines = SortedLineNumbers::from_vec(vec![0, 10, 20]);
    lines.merge(SortedLineNumbers::new());
    assert_eq!(lines.to_vec(), vec![0, 10, 10, 20]);
}

#[test]
fn merge_result_may_be_out_of_order() {
    let mut lines = SortedLineNumbers::from_vec(vec![0, 100]);
    lines.merge(SortedLineNumbers::from_vec(vec![50]));
    assert_eq!(lines.to_vec(), vec![0, 100, 50]);
}

#[test]
fn merge_of_single_line_is_empty() {
    let mut lines = SortedLineNumbers::from_vec(vec![42]);
    lines.merge(SortedLineNumbers::from_vec(vec![1, 2, 3]));
    assert_eq!(lines.to_vec(), Vec::<usize>::new());
}

#[test]
fn fill_halves_wide_gaps_until_none_is_left() {
    let mut lines = SortedLineNumbers::from_vec(vec![0, 200]);
    lines.fill_line_gaps();
    assert_eq!(lines.to_vec(), vec![0, 50, 100, 150, 200]);
}

#[test]
fn fill_puts_in_midpoint_rounded_down() {
    let mut lines = SortedLineNumbers::from_vec(vec![0, 51]);
    lines.fill_line_gaps();
    assert_eq!(lines.to_vec(), vec![0, 25, 51]);
}

#[test]
fn fill_leaves_close_lines_alone() {
    let mut lines = SortedLineNumbers::from_vec(vec![10, 20, 70]);
    lines.fill_line_gaps();
    assert_eq!(lines.to_vec(), vec![10, 20, 70]);
}

#[test]
fn fill_keeps_every_line_and_closes_gaps() {
    let original = vec![3, 90, 91, 400, 1000];
    let mut lines = SortedLineNumbers::from_vec(original.clone());
    lines.fill_line_gaps();
    let filled = lines.to_vec();
    for x in &original {
        assert!(filled.contains(x));
    }
    assert_eq!(filled.first(), Some(&3));
    assert_eq!(filled.last(), Some(&1000));
    for k in 0..filled.len() - 1 {
        assert!(filled[k] <= filled[k + 1]);
        assert!(filled[k + 1] - filled[k] <= 50);
    }
}

#[test]
fn fill_with_large_line_numbers() {
    let mut lines = SortedLineNumbers::from_vec(vec![usize::MAX - 60, usize::MAX]);
    lines.fill_line_gaps();
    assert_eq!(lines.to_vec(), vec![usize::MAX - 60, usize::MAX - 30, usize::MAX]);
}

#[test]
fn fileline_numbers_start_with_line_zero() {
    assert_eq!(get_fileline_numbers(Ok(vec![3, 5])), vec![0, 3, 5]);
    assert_eq!(get_fileline_numbers(Ok(vec![])), vec![0]);
    assert_eq!(get_fileline_numbers(Err("rg failed".to_string())), Vec::<usize>::new());
}

#[test]
fn process_line_numbers_cuts_a_file() {
    let report = process_line_numbers(vec![0, 10, 200], vec![0, 100, 150]);
    assert_eq!(report.first_filtered, vec![0, 10, 200]);
    assert_eq!(report.second_filtered, vec![0, 100, 150]);
    assert_eq!(report.result, vec![0, 10, 55, 100, 150, 200]);
}

#[test]
fn process_line_numbers_of_nothing() {
    let report = process_line_numbers(vec![], vec![]);
    assert!(report.result.is_empty());
}
