use splot::chars::{is_whitespace_char, split_at_each, to_chars, to_string, trimmed};
use splot::decimal::{digits_padded, is_digit_char, Decimal};

fn chars(s: &str) -> Vec<char> {
    s.chars().collect()
}

fn value(d: &Decimal) -> f64 {
    d.to_string().parse::<f64>().unwrap()
}

#[test]
fn whitespace_is_what_the_standard_library_calls_whitespace() {
    for code in 0..=0x10FFFFu32 {
        if let Some(c) = char::from_u32(code) {
            assert_eq!(is_whitespace_char(c), c.is_whitespace(), "U+{:04X}", code);
        }
    }
}

#[test]
fn digits_are_the_ascii_digits() {
    for code in 0..=0x10FFFFu32 {
        if let Some(c) = char::from_u32(code) {
            assert_eq!(is_digit_char(c), c.is_ascii_digit(), "U+{:04X}", code);
        }
    }
}

#[test]
fn to_chars_and_back() {
    for s in ["", "a", "time=1, b=2", "gr\u{00fc}\u{00df}e \u{1F600}\n"] {
        assert_eq!(to_chars(s), chars(s));
        assert_eq!(to_string(&chars(s)), s.to_string());
    }
}

#[test]
fn trimmed_agrees_with_trim() {
    for s in [
        "",
        " ",
        "\n",
        "a",
        " a",
        "a ",
        "  a b  ",
        "\t\r\n a=1 , b=2 \r\n",
        "\u{00a0}x\u{3000}",
        "\u{2003}\u{2028}",
        " \u{00fc} ",
    ] {
        assert_eq!(trimmed(&chars(s)), chars(s.trim()), "{:?}", s);
    }
}

#[test]
fn split_agrees_with_the_standard_split() {
    for s in ["", ",", ",,", "a", "a,b", "a,,b", ",a,", "a;b,c", "1.0, 2.0 ,3", "\u{00fc},\u{00df}"] {
        for sep in [',', ';', ':'] {
            let expected: Vec<Vec<char>> = s.split(sep).map(|p| p.chars().collect()).collect();
            assert_eq!(split_at_each(&chars(s), sep), expected, "{:?} at {:?}", s, sep);
        }
    }
}

#[test]
fn digits_padded_pads_on_the_left() {
    assert_eq!(digits_padded(0, 0), vec![0]);
    assert_eq!(digits_padded(0, 1), vec![0]);
    assert_eq!(digits_padded(0, 3), vec![0, 0, 0]);
    assert_eq!(digits_padded(7, 2), vec![0, 7]);
    assert_eq!(digits_padded(42, 2), vec![4, 2]);
    assert_eq!(digits_padded(1234, 2), vec![1, 2, 3, 4]);
    assert_eq!(
        digits_padded(u64::MAX, 1),
        vec![1, 8, 4, 4, 6, 7, 4, 4, 0, 7, 3, 7, 0, 9, 5, 5, 1, 6, 1, 5]
    );
}

#[test]
fn parse_reads_decimal_literals() {
    let d = Decimal::parse(&chars("12.50")).unwrap();
    assert!(!d.is_negative());
    assert_eq!(d.int_digits(), &vec![1, 2]);
    assert_eq!(d.frac_digits(), &vec![5, 0]);
    assert_eq!(d.to_string(), "12.50");

    let d = Decimal::parse(&chars("-0.4")).unwrap();
    assert!(d.is_negative());
    assert_eq!(d.int_digits(), &vec![0]);
    assert_eq!(d.frac_digits(), &vec![4]);
    assert_eq!(d.to_string(), "-0.4");
    assert_eq!(value(&d), -0.4);

    let d = Decimal::parse(&chars(".5")).unwrap();
    assert_eq!(d.int_digits(), &Vec::<u8>::new());
    assert_eq!(d.frac_digits(), &vec![5]);
    assert_eq!(d.to_string(), "0.5");

    let d = Decimal::parse(&chars("5.")).unwrap();
    assert_eq!(d.int_digits(), &vec![5]);
    assert_eq!(d.frac_digits(), &Vec::<u8>::new());
    assert_eq!(d.to_string(), "5");

    let d = Decimal::parse(&chars("-.5")).unwrap();
    assert!(d.is_negative());
    assert_eq!(value(&d), -0.5);

    let d = Decimal::parse(&chars("007")).unwrap();
    assert_eq!(d.int_digits(), &vec![0, 0, 7]);
    assert_eq!(value(&d), 7.0);
}

#[test]
fn parse_refuses_what_is_no_literal() {
    for s in ["", "-", ".", "-.", "--1", "1-", "1-2", "1.2.3", "..1", "1..", "-1-", "a", "1a", "+1", " 1", "1 ", "1e5"] {
        assert!(Decimal::parse(&chars(s)).is_none(), "{:?}", s);
    }
}

#[test]
fn parse_agrees_with_the_floating_point_parser_on_numeric_text() {
    let alphabet = ['0', '7', '-', '.'];
    let mut texts: Vec<String> = vec![String::new()];
    let mut last: Vec<String> = vec![String::new()];
    for _ in 0..6 {
        let mut next = Vec::new();
        for t in &last {
            for c in alphabet {
                let mut longer = t.clone();
                longer.push(c);
                next.push(longer);
            }
        }
        texts.extend(next.iter().cloned());
        last = next;
    }
    assert_eq!(texts.len(), 1 + 4 + 16 + 64 + 256 + 1024 + 4096);
    for t in &texts {
        let ours = Decimal::parse(&chars(t));
        let theirs = t.parse::<f64>();
        assert_eq!(ours.is_some(), theirs.is_ok(), "{:?}", t);
        if let (Some(d), Ok(f)) = (ours, theirs) {
            assert_eq!(value(&d), f, "{:?}", t);
            assert_eq!(d.is_negative(), f.is_sign_negative(), "{:?}", t);
        }
    }
}

#[test]
fn to_string_writes_a_zero_before_a_bare_fraction() {
    assert_eq!(Decimal::parse(&chars(".25")).unwrap().to_string(), "0.25");
    assert_eq!(Decimal::parse(&chars("-.25")).unwrap().to_string(), "-0.25");
    assert_eq!(Decimal::parse(&chars("3")).unwrap().to_string(), "3");
    assert_eq!(Decimal::parse(&chars("-0")).unwrap().to_string(), "-0");
}

#[test]
fn shift_left_divides_by_powers_of_ten() {
    let d = Decimal::parse(&chars("100")).unwrap();
    assert_eq!(d.shift_left(0).to_string(), "100");
    assert_eq!(d.shift_left(1).to_string(), "10.0");
    assert_eq!(d.shift_left(3).to_string(), "0.100");
    assert_eq!(d.shift_left(6).to_string(), "0.000100");
    assert_eq!(value(&d.shift_left(3)), 0.1);

    let d = Decimal::parse(&chars("-12.5")).unwrap();
    assert_eq!(d.shift_left(1).to_string(), "-1.25");
    assert_eq!(d.shift_left(2).to_string(), "-0.125");
    assert_eq!(d.shift_left(4).to_string(), "-0.00125");
}

#[test]
fn shift_right_multiplies_by_powers_of_ten() {
    let d = Decimal::parse(&chars("1.25")).unwrap();
    assert_eq!(d.shift_right(0).to_string(), "1.25");
    assert_eq!(d.shift_right(1).to_string(), "12.5");
    assert_eq!(d.shift_right(2).to_string(), "125");
    assert_eq!(d.shift_right(4).to_string(), "12500");
    let d = Decimal::parse(&chars("-.5")).unwrap();
    assert_eq!(d.shift_right(3).to_string(), "-500");
    assert_eq!(value(&d.shift_right(3)), -500.0);
}

#[test]
fn shifting_there_and_back_keeps_the_number() {
    for s in ["0", "1", "100", "12.5", "-0.004", ".5", "5.", "123456789.987654321"] {
        let d = Decimal::parse(&chars(s)).unwrap();
        for places in [0usize, 1, 3, 6, 12] {
            assert_eq!(value(&d.shift_left(places).shift_right(places)), value(&d), "{:?}", s);
        }
    }
}

#[test]
fn from_duration_is_seconds_with_nine_places() {
    assert_eq!(Decimal::from_duration(0, 0).to_string(), "0.000000000");
    assert_eq!(Decimal::from_duration(1, 500_000_000).to_string(), "1.500000000");
    assert_eq!(Decimal::from_duration(12, 34).to_string(), "12.000000034");
    assert_eq!(value(&Decimal::from_duration(3, 250_000_000)), 3.25);
    assert_eq!(
        Decimal::from_duration(u64::MAX, 999_999_999).to_string(),
        "18446744073709551615.999999999"
    );
}

#[test]
fn clone_of_a_decimal_is_the_same_number() {
    let d = Decimal::parse(&chars("-12.034")).unwrap();
    let copy = d.clone();
    assert_eq!(copy.is_negative(), d.is_negative());
    assert_eq!(copy.int_digits(), d.int_digits());
    assert_eq!(copy.frac_digits(), d.frac_digits());
}
