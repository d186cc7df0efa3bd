use code_chunks::ripgrep_output::parse_ripgrep_output;

#[test]
fn output_lines_give_the_following_line() {
    assert_eq!(parse_ripgrep_output("12:}\n7:}\n"), vec![13, 8]);
}

#[test]
fn lines_without_a_number_are_passed_over() {
    assert_eq!(parse_ripgrep_output("abc\n+4:x\r\n\n-3:y\n:z\n"), vec![5]);
}

#[test]
fn carriage_return_before_newline_is_dropped() {
    assert_eq!(parse_ripgrep_output("5\r\n"), vec![6]);
    assert_eq!(parse_ripgrep_output("5\r"), Vec::<usize>::new());
    assert_eq!(parse_ripgrep_output("5"), vec![6]);
}

#[test]
fn only_the_text_before_the_first_colon_counts() {
    assert_eq!(parse_ripgrep_output("2:a:b\n"), vec![3]);
    assert_eq!(parse_ripgrep_output("007:x"), vec![8]);
}

#[test]
fn numbers_too_large_are_passed_over() {
    assert_eq!(parse_ripgrep_output("18446744073709551616:x\n3:y"), vec![4]);
}

#[test]
fn empty_output_gives_nothing() {
    assert_eq!(parse_ripgrep_output(""), Vec::<usize>::new());
    assert_eq!(parse_ripgrep_output("\n\n"), Vec::<usize>::new());
}
