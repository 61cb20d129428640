use resfix::lines::remove_line;
use resfix::lines::split_lines;

#[test]
fn split_keeps_terminators() {
    let content: Vec<u8> = b"a\nbc\nd".to_vec();
    let lines = split_lines(&content);
    assert_eq!(lines, vec![b"a\n".to_vec(), b"bc\n".to_vec(), b"d".to_vec()]);
}

#[test]
fn split_of_empty_content_has_no_lines() {
    let content: Vec<u8> = Vec::new();
    assert_eq!(split_lines(&content).len(), 0);
}

#[test]
fn split_of_lone_newline_is_one_line() {
    let content: Vec<u8> = b"\n".to_vec();
    assert_eq!(split_lines(&content), vec![b"\n".to_vec()]);
}

#[test]
fn remove_middle_line() {
    let content: Vec<u8> = b"one\ntwo\nthree\n".to_vec();
    assert_eq!(remove_line(&content, 2), b"one\nthree\n".to_vec());
}

#[test]
fn remove_first_line() {
    let content: Vec<u8> = b"one\ntwo\nthree\n".to_vec();
    assert_eq!(remove_line(&content, 1), b"two\nthree\n".to_vec());
}

#[test]
fn remove_last_line_without_terminator() {
    let content: Vec<u8> = b"one\ntwo".to_vec();
    assert_eq!(remove_line(&content, 2), b"one\n".to_vec());
}

#[test]
fn remove_only_line_leaves_empty_file() {
    let content: Vec<u8> = b"solo\n".to_vec();
    assert_eq!(remove_line(&content, 1), Vec::<u8>::new());
}

#[test]
fn remove_out_of_range_keeps_content() {
    let content: Vec<u8> = b"one\ntwo\nthree\n".to_vec();
    assert_eq!(remove_line(&content, 4), content);
}

#[test]
fn remove_line_zero_keeps_content() {
    let content: Vec<u8> = b"one\ntwo\n".to_vec();
    assert_eq!(remove_line(&content, 0), content);
}

#[test]
fn remove_from_empty_content_keeps_it_empty() {
    let content: Vec<u8> = Vec::new();
    assert_eq!(remove_line(&content, 1), Vec::<u8>::new());
}

#[test]
fn round_trip_keeps_other_lines_in_order() {
    let content: Vec<u8> = b"k1\nk2\ngone\nk3\nk4\n".to_vec();
    let rewritten = remove_line(&content, 3);
    let lines = split_lines(&rewritten);
    assert_eq!(lines.len(), 4);
    assert_eq!(
        lines,
        vec![b"k1\n".to_vec(), b"k2\n".to_vec(), b"k3\n".to_vec(), b"k4\n".to_vec()]
    );
}

#[test]
fn duplicate_lines_lose_only_the_targeted_copy() {
    let content: Vec<u8> = b"same\nsame\nsame\n".to_vec();
    assert_eq!(remove_line(&content, 2), b"same\nsame\n".to_vec());
}
