use splot::decimal::Decimal;
use splot::parser::{keep_numeric, read_line, read_one_field, Field, ParseResult, Parser};
use splot::sample::{Sample, TimeUnit};
use std::time::{Duration, Instant};

fn chars(s: &str) -> Vec<char> {
    s.chars().collect()
}

fn value(d: &Decimal) -> f64 {
    d.to_string().parse::<f64>().unwrap()
}

fn parse(input: &str, unit: TimeUnit, secs: u64, nanos: u32) -> ParseResult {
    let mut parser = Parser::default();
    parser.parse_at(input.as_bytes(), unit, ',', secs, nanos)
}

/// The samples of a result as plain values: time, value and name.
fn plain(result: &ParseResult) -> Vec<Vec<(f64, f64, Option<String>)>> {
    result
        .samples_vec()
        .iter()
        .map(|history| history.iter().map(plain_sample).collect())
        .collect()
}

fn plain_sample(sample: &Sample) -> (f64, f64, Option<String>) {
    (value(sample.time()), value(sample.value()), sample.name().clone())
}

fn name(s: &str) -> Option<String> {
    Some(s.to_string())
}

#[test]
fn keep_numeric_keeps_digits_minus_and_point() {
    assert_eq!(keep_numeric(&chars(" -12.5 V")), chars("-12.5"));
    assert_eq!(keep_numeric(&chars("1e5")), chars("15"));
    assert_eq!(keep_numeric(&chars("+3")), chars("3"));
    assert_eq!(keep_numeric(&chars("abc")), chars(""));
    assert_eq!(keep_numeric(&chars("1=2")), chars("12"));
    assert_eq!(keep_numeric(&chars("\u{0661}2")), chars("2"));
}

#[test]
fn a_field_without_a_name_is_a_value() {
    match read_one_field(&chars(" 1.5 "), TimeUnit::S) {
        Field::Value { name, value: v } => {
            assert_eq!(name, None);
            assert_eq!(value(&v), 1.5);
        }
        other => panic!("{:?}", other),
    }
}

#[test]
fn the_name_is_what_stands_before_the_first_equals_sign() {
    match read_one_field(&chars("  dist = 42 "), TimeUnit::S) {
        Field::Value { name: n, value: v } => {
            assert_eq!(n, name("dist"));
            assert_eq!(value(&v), 42.0);
        }
        other => panic!("{:?}", other),
    }
    match read_one_field(&chars("a=1=2"), TimeUnit::S) {
        Field::Value { name: n, value: v } => {
            assert_eq!(n, name("a"));
            assert_eq!(value(&v), 12.0);
        }
        other => panic!("{:?}", other),
    }
    match read_one_field(&chars("=5"), TimeUnit::S) {
        Field::Value { name: n, value: v } => {
            assert_eq!(n, name(""));
            assert_eq!(value(&v), 5.0);
        }
        other => panic!("{:?}", other),
    }
}

#[test]
fn time_and_t_name_the_time_field() {
    for (field, unit, secs) in [
        ("time=100", TimeUnit::Ms, 0.1),
        ("t=100", TimeUnit::Ms, 0.1),
        (" time = 2500000 ", TimeUnit::Us, 2.5),
        ("t=7", TimeUnit::S, 7.0),
        ("time=-3", TimeUnit::Ms, -0.003),
    ] {
        match read_one_field(&chars(field), unit) {
            Field::Time(t) => assert_eq!(value(&t), secs, "{:?}", field),
            other => panic!("{:?}", other),
        }
    }
}

#[test]
fn the_time_name_is_case_sensitive() {
    for field in ["Time=1", "TIME=1", "T=1", "times=1", "tim=1", "ti=1", "tt=1"] {
        match read_one_field(&chars(field), TimeUnit::S) {
            Field::Value { name: n, .. } => assert!(n.is_some(), "{:?}", field),
            other => panic!("{:?}", other),
        }
    }
}

#[test]
fn a_field_without_a_number_says_nothing() {
    for field in ["", " ", "abc", "a=", "a=b", "time=", "t=x", "-", ".", "1.2.3", "1-2", "a=1-2"] {
        assert!(matches!(read_one_field(&chars(field), TimeUnit::S), Field::Nothing), "{:?}", field);
    }
}

#[test]
fn time_field_in_milliseconds_stamps_the_samples_after_it() {
    let result = parse("time=100, square=0.2, sin=-0.4\n", TimeUnit::Ms, 5, 0);
    assert_eq!(result.full_lines(), &vec!["time=100, square=0.2, sin=-0.4\n".to_string()]);
    assert_eq!(result.n_new_samples(), 2);
    // The time field keeps its place: position 0 holds no sample.
    assert_eq!(
        plain(&result),
        vec![vec![], vec![(0.1, 0.2, name("square"))], vec![(0.1, -0.4, name("sin"))]]
    );
}

#[test]
fn samples_carry_the_position_of_their_field() {
    let start = Decimal::from_duration(5, 0);
    let (placed, after) = read_line("time=100, square=0.2, sin=-0.4\n", ',', TimeUnit::Ms, &start);
    assert_eq!(placed.len(), 2);
    assert_eq!(placed[0].0, 1);
    assert_eq!(plain_sample(&placed[0].1), (0.1, 0.2, name("square")));
    assert_eq!(placed[1].0, 2);
    assert_eq!(plain_sample(&placed[1].1), (0.1, -0.4, name("sin")));
    assert_eq!(value(&after), 0.1);
}

#[test]
fn without_a_time_field_all_samples_get_the_elapsed_time() {
    let result = parse("1.0,2.0\n", TimeUnit::S, 3, 250_000_000);
    assert_eq!(result.n_new_samples(), 2);
    assert_eq!(plain(&result), vec![vec![(3.25, 1.0, None)], vec![(3.25, 2.0, None)]]);
}

#[test]
fn empty_fields_give_no_sample() {
    let result = parse(",,\n", TimeUnit::S, 1, 0);
    assert_eq!(result.full_lines(), &vec![",,\n".to_string()]);
    assert_eq!(result.n_new_samples(), 0);
    assert!(result.samples_vec().is_empty());
}

#[test]
fn blank_lines_give_no_sample() {
    let result = parse("\n  \r\n\t\n", TimeUnit::S, 1, 0);
    assert_eq!(result.full_lines().len(), 3);
    assert_eq!(result.n_new_samples(), 0);
    assert!(result.samples_vec().is_empty());
}

#[test]
fn fields_before_the_time_field_keep_the_earlier_time() {
    let result = parse("1,t=9,2\n", TimeUnit::S, 4, 0);
    assert_eq!(result.n_new_samples(), 2);
    assert_eq!(plain(&result), vec![vec![(4.0, 1.0, None)], vec![], vec![(9.0, 2.0, None)]]);
}

#[test]
fn a_time_field_without_a_number_changes_nothing() {
    let result = parse("t=x,2\n", TimeUnit::S, 4, 0);
    assert_eq!(result.n_new_samples(), 1);
    assert_eq!(plain(&result), vec![vec![], vec![(4.0, 2.0, None)]]);
}

#[test]
fn the_time_of_a_time_field_holds_on_its_own_line_only() {
    let result = parse("t=9,1\n2\n", TimeUnit::S, 4, 0);
    assert_eq!(result.n_new_samples(), 2);
    assert_eq!(plain(&result), vec![vec![(4.0, 2.0, None)], vec![(9.0, 1.0, None)]]);
    let result = parse("1\nt=9\n2\n", TimeUnit::S, 4, 0);
    assert_eq!(plain(&result), vec![vec![(4.0, 1.0, None), (4.0, 2.0, None)]]);
    let start = Decimal::from_duration(4, 0);
    let (placed, after) = read_line("t=9,1\n", ',', TimeUnit::S, &start);
    assert_eq!(placed.len(), 1);
    assert_eq!(value(&after), 9.0);
    let (placed, after) = read_line("1,2\n", ',', TimeUnit::S, &start);
    assert_eq!(placed.len(), 2);
    assert_eq!(value(&after), 4.0);
}

#[test]
fn the_same_field_of_like_lines_lands_in_one_history() {
    // The time field takes position 0, so the value has position 1 on every
    // line, and position 0 never holds a sample.
    let result = parse("t=1,5\nt=2,6\nt=3,7\n", TimeUnit::S, 0, 0);
    assert_eq!(result.n_new_samples(), 3);
    assert_eq!(
        plain(&result),
        vec![vec![], vec![(1.0, 5.0, None), (2.0, 6.0, None), (3.0, 7.0, None)]]
    );
}

#[test]
fn a_time_field_in_the_middle_keeps_its_place() {
    let result = parse("a=1,time=2,b=3\n", TimeUnit::S, 7, 0);
    assert_eq!(
        plain(&result),
        vec![vec![(7.0, 1.0, name("a"))], vec![], vec![(2.0, 3.0, name("b"))]]
    );
    // Without the time field the same values stand one place lower.
    let result = parse("a=1,b=3\n", TimeUnit::S, 7, 0);
    assert_eq!(
        plain(&result),
        vec![vec![(7.0, 1.0, name("a"))], vec![(7.0, 3.0, name("b"))]]
    );
}

#[test]
fn fields_without_a_number_keep_their_place() {
    let result = parse("x,,5,abc,6\n", TimeUnit::S, 0, 0);
    assert_eq!(result.n_new_samples(), 2);
    assert_eq!(
        plain(&result),
        vec![vec![], vec![], vec![(0.0, 5.0, None)], vec![], vec![(0.0, 6.0, None)]]
    );
}

#[test]
fn samples_of_one_position_form_one_history() {
    let result = parse("a=1,b=2\na=3,b=4\n", TimeUnit::S, 2, 0);
    assert_eq!(result.n_new_samples(), 4);
    assert_eq!(
        plain(&result),
        vec![
            vec![(2.0, 1.0, name("a")), (2.0, 3.0, name("a"))],
            vec![(2.0, 2.0, name("b")), (2.0, 4.0, name("b"))],
        ]
    );
}

#[test]
fn other_separators_cut_the_line() {
    let mut parser = Parser::default();
    let result = parser.parse_at(b"1;2,5;3\n", TimeUnit::S, ';', 0, 0);
    assert_eq!(result.n_new_samples(), 3);
    assert_eq!(
        plain(&result),
        vec![vec![(0.0, 1.0, None)], vec![(0.0, 25.0, None)], vec![(0.0, 3.0, None)]]
    );
}

#[test]
fn characters_that_are_no_part_of_a_number_are_dropped() {
    let result = parse("temp= 21.5 C, rpm=1,200\n", TimeUnit::S, 0, 0);
    assert_eq!(
        plain(&result),
        vec![
            vec![(0.0, 21.5, name("temp"))],
            vec![(0.0, 1.0, name("rpm"))],
            vec![(0.0, 200.0, None)],
        ]
    );
}

#[test]
fn an_unterminated_tail_waits_for_its_newline() {
    let mut parser = Parser::default();
    let result = parser.parse_at(b"partial", TimeUnit::S, ',', 0, 0);
    assert!(result.full_lines().is_empty());
    assert_eq!(result.n_new_samples(), 0);
    assert_eq!(parser.pending(), &b"partial".to_vec());

    let result = parser.parse_at(b"\n", TimeUnit::S, ',', 0, 0);
    assert_eq!(result.full_lines(), &vec!["partial\n".to_string()]);
    assert!(parser.pending().is_empty());
}

#[test]
fn a_retained_tail_comes_before_the_next_chunk() {
    let mut parser = Parser::default();
    let result = parser.parse_at(b"partial", TimeUnit::S, ',', 0, 0);
    assert!(result.full_lines().is_empty());
    let result = parser.parse_at(b"partial\n", TimeUnit::S, ',', 0, 0);
    assert_eq!(result.full_lines(), &vec!["partialpartial\n".to_string()]);
    assert!(parser.pending().is_empty());
}

#[test]
fn a_number_cut_in_two_is_read_whole() {
    let mut parser = Parser::default();
    let first = parser.parse_at(b"a=1,b=2\nc=3", TimeUnit::S, ',', 0, 0);
    assert_eq!(first.full_lines(), &vec!["a=1,b=2\n".to_string()]);
    assert_eq!(parser.pending(), &b"c=3".to_vec());
    let second = parser.parse_at(b"4\n", TimeUnit::S, ',', 0, 0);
    assert_eq!(second.full_lines(), &vec!["c=34\n".to_string()]);
    assert_eq!(plain(&second), vec![vec![(0.0, 34.0, name("c"))]]);
}

#[test]
fn two_chunks_give_the_lines_of_one() {
    let mut chunked = Parser::default();
    let first = chunked.parse_at(b"a=1,b=2\n", TimeUnit::S, ',', 1, 0);
    let second = chunked.parse_at(b"c=3\nd=4\n", TimeUnit::S, ',', 1, 0);
    let mut whole = Parser::default();
    let all = whole.parse_at(b"a=1,b=2\nc=3\nd=4\n", TimeUnit::S, ',', 1, 0);

    let mut lines = first.full_lines().clone();
    lines.extend(second.full_lines().iter().cloned());
    assert_eq!(lines, vec!["a=1,b=2\n", "c=3\n", "d=4\n"]);
    assert_eq!(&lines, all.full_lines());
    assert_eq!(first.n_new_samples() + second.n_new_samples(), all.n_new_samples());
    assert_eq!(chunked.pending(), whole.pending());

    assert_eq!(plain(&first), vec![vec![(1.0, 1.0, name("a"))], vec![(1.0, 2.0, name("b"))]]);
    assert_eq!(plain(&second), vec![vec![(1.0, 3.0, name("c")), (1.0, 4.0, name("d"))]]);
    assert_eq!(
        plain(&all),
        vec![
            vec![(1.0, 1.0, name("a")), (1.0, 3.0, name("c")), (1.0, 4.0, name("d"))],
            vec![(1.0, 2.0, name("b"))],
        ]
    );
}

#[test]
fn a_line_that_is_not_utf8_stays_in_front_of_the_pending_bytes() {
    // The bytes that leave the front are as many as the lines read hold, so
    // a line that was passed over stays and is met again.
    let mut parser = Parser::default();
    let result = parser.parse_at(&[0xFF, b'\n', b'1', b'\n'], TimeUnit::S, ',', 0, 0);
    assert_eq!(result.full_lines(), &vec!["1\n".to_string()]);
    assert_eq!(parser.pending(), &vec![b'1', b'\n']);
}

#[test]
fn clear_forgets_the_pending_bytes() {
    let mut parser = Parser::default();
    parser.parse_at(b"12", TimeUnit::S, ',', 0, 0);
    assert_eq!(parser.pending(), &b"12".to_vec());
    parser.clear();
    assert!(parser.pending().is_empty());
    let result = parser.parse_at(b"3\n", TimeUnit::S, ',', 0, 0);
    assert_eq!(plain(&result), vec![vec![(0.0, 3.0, None)]]);
}

#[test]
fn very_long_numbers_are_read_exactly() {
    let result = parse("123456789012345678901234567890.000000000000000000001\n", TimeUnit::S, 0, 0);
    let sample = &result.samples_vec()[0][0];
    assert_eq!(sample.value().to_string(), "123456789012345678901234567890.000000000000000000001");
}

#[test]
fn the_clock_gives_the_time_of_samples_without_one() {
    let start = Instant::now() - Duration::from_secs(5);
    let mut parser = Parser::default();
    let result = parser.parse_from_serial_data(b"1,2\n", TimeUnit::S, ',', start);
    assert_eq!(result.n_new_samples(), 2);
    let first = plain_sample(&result.samples_vec()[0][0]);
    let second = plain_sample(&result.samples_vec()[1][0]);
    assert!(first.0 >= 5.0 && first.0 < 65.0, "{}", first.0);
    assert_eq!(first.0, second.0);
    assert_eq!(first.1, 1.0);
    assert_eq!(second.1, 2.0);
    assert!(parser.pending().is_empty());
}

#[test]
fn the_clock_does_not_touch_samples_with_a_time() {
    let start = Instant::now() - Duration::from_secs(5);
    let mut parser = Parser::default();
    let result = parser.parse_from_serial_data(b"t=250,1\n", TimeUnit::Ms, ',', start);
    assert_eq!(plain(&result), vec![vec![], vec![(0.25, 1.0, None)]]);
}

#[test]
fn time_units_convert_to_and_from_seconds() {
    let d = Decimal::parse(&chars("1500")).unwrap();
    assert_eq!(TimeUnit::Us.convert_to_secs(&d).to_string(), "0.001500");
    assert_eq!(TimeUnit::Ms.convert_to_secs(&d).to_string(), "1.500");
    assert_eq!(TimeUnit::S.convert_to_secs(&d).to_string(), "1500");
    let s = Decimal::parse(&chars("1.5")).unwrap();
    assert_eq!(TimeUnit::Us.convert_from_secs(&s).to_string(), "1500000");
    assert_eq!(TimeUnit::Ms.convert_from_secs(&s).to_string(), "1500");
    assert_eq!(TimeUnit::S.convert_from_secs(&s).to_string(), "1.5");
}

#[test]
fn time_units_have_names_and_a_default() {
    assert_eq!(TimeUnit::default(), TimeUnit::S);
    assert_eq!(TimeUnit::Us.to_string(), "us");
    assert_eq!(TimeUnit::Ms.to_string(), "ms");
    assert_eq!(TimeUnit::S.to_string(), "s");
    assert!(TimeUnit::Us < TimeUnit::Ms && TimeUnit::Ms < TimeUnit::S);
}

#[test]
fn clone_of_a_result_is_the_same() {
    let result = parse("t=1,a=2,3\n4\n", TimeUnit::S, 0, 0);
    let copy = result.clone();
    assert_eq!(copy.full_lines(), result.full_lines());
    assert_eq!(copy.n_new_samples(), result.n_new_samples());
    assert_eq!(plain(&copy), plain(&result));
    assert_eq!(
        plain(&copy),
        vec![vec![(0.0, 4.0, None)], vec![(1.0, 2.0, name("a"))], vec![(1.0, 3.0, None)]]
    );
}

#[test]
fn clone_of_a_parser_keeps_the_pending_bytes() {
    let mut parser = Parser::default();
    parser.parse_at(b"12", TimeUnit::S, ',', 0, 0);
    let mut copy = parser.clone();
    assert_eq!(copy.pending(), &b"12".to_vec());
    let result = copy.parse_at(b"3\n", TimeUnit::S, ',', 0, 0);
    assert_eq!(plain(&result), vec![vec![(0.0, 123.0, None)]]);
    assert_eq!(parser.pending(), &b"12".to_vec());
}

#[test]
fn into_parts_hands_out_what_was_found() {
    let result = parse("1,2\n", TimeUnit::S, 0, 0);
    let (lines, series, n) = result.into_parts();
    assert_eq!(lines, vec!["1,2\n"]);
    assert_eq!(series.len(), 2);
    assert_eq!(n, 2);
}

#[test]
fn feed_hands_out_full_lines_and_keeps_the_tail() {
    let mut parser = Parser::default();
    let (lines, used) = parser.feed(b"partial");
    assert!(lines.is_empty());
    assert_eq!(used, 0);
    assert_eq!(parser.pending(), &b"partial".to_vec());

    let (lines, used) = parser.feed(b"\nnext=1\nta");
    assert_eq!(lines, vec!["partial\n", "next=1\n"]);
    assert_eq!(used, 15);
    assert_eq!(parser.pending(), &b"ta".to_vec());

    let (lines, used) = parser.feed(b"");
    assert!(lines.is_empty());
    assert_eq!(used, 0);
    assert_eq!(parser.pending(), &b"ta".to_vec());

    let (lines, used) = parser.feed(b"il\n");
    assert_eq!(lines, vec!["tail\n"]);
    assert_eq!(used, 5);
    assert!(parser.pending().is_empty());
}

#[test]
fn feeding_byte_by_byte_gives_the_lines_of_the_whole() {
    let input = "a=1,b=2\nc=3\n\nd=\u{00e9}4\ntail";
    let mut whole = Parser::default();
    let (expected, _) = whole.feed(input.as_bytes());
    let mut parser = Parser::default();
    let mut lines = Vec::new();
    for byte in input.as_bytes() {
        let (found, _) = parser.feed(&[*byte]);
        lines.extend(found);
    }
    assert_eq!(lines, expected);
    assert_eq!(lines, vec!["a=1,b=2\n", "c=3\n", "\n", "d=\u{00e9}4\n"]);
    assert_eq!(parser.pending(), whole.pending());
    assert_eq!(parser.pending(), &b"tail".to_vec());
}
