use splot::lines::read_full_lines;

#[test]
fn full_lines_are_returned_with_their_newline() {
    let (lines, used) = read_full_lines(b"a=1,b=2\nc=3\nd=4\n");
    assert_eq!(lines, vec!["a=1,b=2\n", "c=3\n", "d=4\n"]);
    assert_eq!(used, 16);
}

#[test]
fn empty_input_has_no_line() {
    let (lines, used) = read_full_lines(b"");
    assert!(lines.is_empty());
    assert_eq!(used, 0);
}

#[test]
fn unterminated_tail_is_no_line() {
    let (lines, used) = read_full_lines(b"partial");
    assert!(lines.is_empty());
    assert_eq!(used, 0);

    let (lines, used) = read_full_lines(b"partial\n");
    assert_eq!(lines, vec!["partial\n"]);
    assert_eq!(used, 8);

    let (lines, used) = read_full_lines(b"one\ntwo");
    assert_eq!(lines, vec!["one\n"]);
    assert_eq!(used, 4);
}

#[test]
fn empty_lines_are_lines() {
    let (lines, used) = read_full_lines(b"\n\nx\n");
    assert_eq!(lines, vec!["\n", "\n", "x\n"]);
    assert_eq!(used, 4);
}

#[test]
fn carriage_return_stays_in_the_line() {
    let (lines, used) = read_full_lines(b"1,2\r\n3");
    assert_eq!(lines, vec!["1,2\r\n"]);
    assert_eq!(used, 5);
}

#[test]
fn text_beyond_ascii_is_decoded() {
    let input = "gr\u{00fc}n=1\n\u{1F600}\n".as_bytes();
    let (lines, used) = read_full_lines(input);
    assert_eq!(lines, vec!["gr\u{00fc}n=1\n", "\u{1F600}\n"]);
    assert_eq!(used, input.len());
}

#[test]
fn a_line_that_is_not_utf8_is_passed_over() {
    let (lines, used) = read_full_lines(&[0xFF, b'\n', b'a', b'\n']);
    assert_eq!(lines, vec!["a\n"]);
    assert_eq!(used, 2);

    let (lines, used) = read_full_lines(&[b'a', b'\n', 0xC3, b'\n', b'b', b'\n']);
    assert_eq!(lines, vec!["a\n", "b\n"]);
    assert_eq!(used, 4);

    let (lines, used) = read_full_lines(&[0x80, 0x80, b'\n']);
    assert!(lines.is_empty());
    assert_eq!(used, 0);
}

#[test]
fn a_character_cut_in_two_waits_for_its_rest() {
    let (lines, used) = read_full_lines(&[b'a', b'\n', 0xC3]);
    assert_eq!(lines, vec!["a\n"]);
    assert_eq!(used, 2);

    let (lines, used) = read_full_lines(&[0xC3, 0xA9, b'\n']);
    assert_eq!(lines, vec!["\u{00e9}\n"]);
    assert_eq!(used, 3);
}
