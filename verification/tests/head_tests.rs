use headr::head_bytes;
use headr::head_lines;

#[test]
fn first_two_lines_keep_their_terminators() {
    let content = b"1\n2\n3\n".to_vec();
    assert_eq!(head_lines(&content, 2), b"1\n2\n".to_vec());
}

#[test]
fn asking_for_more_lines_than_present_yields_the_whole_content() {
    let content = b"1\n2\n3\n".to_vec();
    assert_eq!(head_lines(&content, 5), content);
}

#[test]
fn zero_lines_yield_nothing() {
    let content = b"1\n2\n3\n".to_vec();
    assert_eq!(head_lines(&content, 0), Vec::<u8>::new());
}

#[test]
fn a_final_unterminated_line_counts_as_a_line() {
    let content = b"a\nb".to_vec();
    assert_eq!(head_lines(&content, 2), b"a\nb".to_vec());
    assert_eq!(head_lines(&content, 1), b"a\n".to_vec());
}

#[test]
fn empty_content_has_no_lines() {
    let content = Vec::<u8>::new();
    assert_eq!(head_lines(&content, 3), Vec::<u8>::new());
}

#[test]
fn empty_lines_are_lines_of_their_own() {
    let content = b"\n\nx\n".to_vec();
    assert_eq!(head_lines(&content, 2), b"\n\n".to_vec());
}

#[test]
fn byte_prefix_is_cut_at_the_count() {
    let content = b"hello world".to_vec();
    assert_eq!(head_bytes(&content, 5), b"hello".to_vec());
}

#[test]
fn byte_prefix_length_is_the_smaller_of_count_and_content() {
    let content = b"hello world".to_vec();
    assert_eq!(head_bytes(&content, 100), content);
    assert_eq!(head_bytes(&content, 11), content);
    assert_eq!(head_bytes(&content, 0), Vec::<u8>::new());
}

#[test]
fn byte_prefix_of_empty_content_is_empty() {
    let content = Vec::<u8>::new();
    assert_eq!(head_bytes(&content, 4), Vec::<u8>::new());
}
