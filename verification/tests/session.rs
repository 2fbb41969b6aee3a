use splot::appearance::{
    placeholder, recolor_samples_appearances, unique_color_in_list, SamplesAppearance, SeriesColor,
};
use splot::decimal::Decimal;
use splot::fixedsizebuffer::FixedSizeBuffer;
use splot::parser::Parser;
use splot::sample::{Sample, TimeUnit};
use splot::session::{
    ReadEvent, ReadOutcome, Session, MONITOR_LINES_BUF_SIZE, MONITOR_LINES_BUF_SIZE_WEB,
    READ_BUF_SIZE, SAMPLES_BUF_SIZE, SAMPLES_BUF_SIZE_WEB,
};
use std::time::{Duration, Instant};

fn value(d: &Decimal) -> f64 {
    d.to_string().parse::<f64>().unwrap()
}

fn history(buffer: &FixedSizeBuffer<Sample>) -> Vec<(f64, f64, Option<String>)> {
    let mut out = Vec::new();
    let mut iter = buffer.iter();
    while let Some(s) = iter.next() {
        out.push((value(s.time()), value(s.value()), s.name().clone()));
    }
    out
}

fn series(session: &Session) -> Vec<Option<Vec<(f64, f64, Option<String>)>>> {
    session.samples_vec().iter().map(|slot| slot.as_ref().map(history)).collect()
}

fn monitor(session: &Session) -> Vec<String> {
    let mut out = Vec::new();
    let mut iter = session.serial_monitor_lines().iter();
    while let Some(line) = iter.next() {
        out.push(line.clone());
    }
    out
}

fn appearances(session: &Session) -> Vec<Option<(String, bool, SeriesColor)>> {
    session
        .samples_appearance()
        .iter()
        .map(|slot| slot.as_ref().map(|a| (a.name().clone(), a.visible(), a.color())))
        .collect()
}

fn shown(name: &str, visible: bool, color: SeriesColor) -> Option<(String, bool, SeriesColor)> {
    Some((name.to_string(), visible, color))
}

fn spread(index: usize, count: usize) -> SeriesColor {
    SeriesColor::Spread { index, count }
}

fn name(s: &str) -> Option<String> {
    Some(s.to_string())
}

#[test]
fn sizes_are_what_they_are() {
    assert_eq!(SAMPLES_BUF_SIZE, 16384);
    assert_eq!(SAMPLES_BUF_SIZE_WEB, 2048);
    assert_eq!(MONITOR_LINES_BUF_SIZE, 512);
    assert_eq!(MONITOR_LINES_BUF_SIZE_WEB, 128);
    assert_eq!(READ_BUF_SIZE, 32);
}

#[test]
fn new_session_is_empty() {
    let session = Session::new(SAMPLES_BUF_SIZE, MONITOR_LINES_BUF_SIZE);
    assert!(session.samples_vec().is_empty());
    assert!(session.samples_appearance().is_empty());
    assert_eq!(session.series_count(), 0);
    assert!(session.serial_monitor_lines().is_empty());
    assert_eq!(session.serial_monitor_lines().size(), 512);
    assert_eq!(session.samples_received(), 0);
    assert!(session.parser().pending().is_empty());
}

#[test]
fn placeholder_shows_the_position_with_two_digits() {
    assert_eq!(placeholder(0), "Samples 00");
    assert_eq!(placeholder(7), "Samples 07");
    assert_eq!(placeholder(10), "Samples 10");
    assert_eq!(placeholder(99), "Samples 99");
    assert_eq!(placeholder(100), "Samples 100");
    assert_eq!(placeholder(12345), "Samples 12345");
}

#[test]
fn new_appearance_is_visible_and_blue() {
    let a = SamplesAppearance::new("x".to_string());
    assert_eq!(a.name(), "x");
    assert!(a.visible());
    assert_eq!(a.color(), SeriesColor::Rgba { r: 0, g: 0, b: 255, a: 255 });
}

#[test]
fn recolor_spreads_the_colors_and_keeps_the_rest() {
    let mut list = vec![
        Some(SamplesAppearance::new("a".to_string())),
        None,
        Some(SamplesAppearance::new("b".to_string())),
        Some(SamplesAppearance::new("c".to_string())),
        None,
    ];
    list[2].as_mut().unwrap().set_visible(false);
    recolor_samples_appearances(&mut list);
    let seen: Vec<Option<(String, bool, SeriesColor)>> = list
        .iter()
        .map(|slot| slot.as_ref().map(|a| (a.name().clone(), a.visible(), a.color())))
        .collect();
    assert_eq!(
        seen,
        vec![
            shown("a", true, spread(0, 3)),
            None,
            shown("b", false, spread(1, 3)),
            shown("c", true, spread(2, 3)),
            None,
        ]
    );
    assert_eq!(unique_color_in_list(2, 5), spread(2, 5));
    let mut none: Vec<Option<SamplesAppearance>> = Vec::new();
    recolor_samples_appearances(&mut none);
    assert!(none.is_empty());
}

#[test]
fn samples_are_kept_at_the_position_of_their_field() {
    let mut session = Session::new(100, 10);
    session.ingest(b"time=100, square=0.2, sin=-0.4\n", TimeUnit::Ms, ',', 9, 0);
    // The time field has position 0: there is no history for it.
    assert_eq!(
        series(&session),
        vec![
            None,
            Some(vec![(0.1, 0.2, name("square"))]),
            Some(vec![(0.1, -0.4, name("sin"))]),
        ]
    );
    assert_eq!(
        appearances(&session),
        vec![None, shown("square", true, spread(0, 2)), shown("sin", true, spread(1, 2))]
    );
    assert_eq!(session.series_count(), 2);
    assert_eq!(monitor(&session), vec!["time=100, square=0.2, sin=-0.4\n"]);
    assert_eq!(session.samples_received(), 2);
    assert_eq!(session.samples_vec()[1].as_ref().unwrap().size(), 100);
}

#[test]
fn like_lines_fill_the_same_histories() {
    let mut session = Session::new(100, 10);
    session.ingest(b"t=1,5\nt=2,6\n", TimeUnit::S, ',', 0, 0);
    session.ingest(b"t=3,7\n", TimeUnit::S, ',', 0, 0);
    assert_eq!(
        series(&session),
        vec![None, Some(vec![(1.0, 5.0, None), (2.0, 6.0, None), (3.0, 7.0, None)])]
    );
    assert_eq!(appearances(&session), vec![None, shown("Samples 01", true, spread(0, 1))]);
    assert_eq!(session.series_count(), 1);
}

#[test]
fn a_position_gets_its_history_with_its_first_sample() {
    let mut session = Session::new(100, 10);
    session.ingest(b"t=1,b=5\n", TimeUnit::S, ',', 0, 0);
    assert_eq!(appearances(&session), vec![None, shown("b", true, spread(0, 1))]);
    session.set_color(1, SeriesColor::Rgba { r: 9, g: 9, b: 9, a: 255 });
    // The first position brings a value now: it gets a history named after
    // that value, and the colours are spread over both.
    session.ingest(b"a=7,b=6\n", TimeUnit::S, ',', 3, 0);
    assert_eq!(
        series(&session),
        vec![
            Some(vec![(3.0, 7.0, name("a"))]),
            Some(vec![(1.0, 5.0, name("b")), (3.0, 6.0, name("b"))]),
        ]
    );
    assert_eq!(
        appearances(&session),
        vec![shown("a", true, spread(0, 2)), shown("b", true, spread(1, 2))]
    );
    assert_eq!(session.series_count(), 2);
}

#[test]
fn histories_without_a_name_get_the_placeholder() {
    let mut session = Session::new(100, 10);
    session.ingest(b"1,b=2,3\n", TimeUnit::S, ',', 0, 0);
    assert_eq!(
        appearances(&session),
        vec![
            shown("Samples 00", true, spread(0, 3)),
            shown("b", true, spread(1, 3)),
            shown("Samples 02", true, spread(2, 3)),
        ]
    );
}

#[test]
fn later_samples_join_the_history_of_their_position() {
    let mut session = Session::new(100, 10);
    session.ingest(b"1,2\n", TimeUnit::S, ',', 1, 0);
    session.ingest(b"3,4\n5,6\n", TimeUnit::S, ',', 2, 0);
    assert_eq!(
        series(&session),
        vec![
            Some(vec![(1.0, 1.0, None), (2.0, 3.0, None), (2.0, 5.0, None)]),
            Some(vec![(1.0, 2.0, None), (2.0, 4.0, None), (2.0, 6.0, None)]),
        ]
    );
    assert_eq!(session.samples_received(), 6);
    assert_eq!(monitor(&session), vec!["1,2\n", "3,4\n", "5,6\n"]);
}

#[test]
fn a_new_history_spreads_all_colors_anew_and_keeps_names_and_visibility() {
    let mut session = Session::new(100, 10);
    session.ingest(b"a=1,b=2\n", TimeUnit::S, ',', 0, 0);
    session.set_name(0, "first".to_string());
    session.set_visible(1, false);
    session.set_color(0, SeriesColor::Rgba { r: 1, g: 2, b: 3, a: 4 });
    assert_eq!(
        appearances(&session),
        vec![
            shown("first", true, SeriesColor::Rgba { r: 1, g: 2, b: 3, a: 4 }),
            shown("b", false, spread(1, 2)),
        ]
    );

    // No new history: the appearances stay as they are.
    session.ingest(b"a=3,b=4\n", TimeUnit::S, ',', 0, 0);
    assert_eq!(
        appearances(&session),
        vec![
            shown("first", true, SeriesColor::Rgba { r: 1, g: 2, b: 3, a: 4 }),
            shown("b", false, spread(1, 2)),
        ]
    );

    // A third history: every colour is set anew.
    session.ingest(b"a=5,b=6,c=7\n", TimeUnit::S, ',', 0, 0);
    assert_eq!(
        appearances(&session),
        vec![
            shown("first", true, spread(0, 3)),
            shown("b", false, spread(1, 3)),
            shown("c", true, spread(2, 3)),
        ]
    );
    assert_eq!(session.samples_vec().len(), session.samples_appearance().len());
}

#[test]
fn setters_leave_positions_without_a_history_alone() {
    let mut session = Session::new(100, 10);
    session.ingest(b"t=0,a=1\n", TimeUnit::S, ',', 0, 0);
    session.set_name(0, "x".to_string());
    session.set_visible(0, false);
    session.set_color(0, SeriesColor::Rgba { r: 1, g: 2, b: 3, a: 4 });
    session.set_name(2, "x".to_string());
    session.set_visible(5, false);
    session.set_color(2, SeriesColor::Rgba { r: 1, g: 2, b: 3, a: 4 });
    assert_eq!(appearances(&session), vec![None, shown("a", true, spread(0, 1))]);
    assert_eq!(series(&session), vec![None, Some(vec![(0.0, 1.0, name("a"))])]);
}

#[test]
fn histories_drop_their_oldest_samples() {
    let mut session = Session::new(3, 2);
    session.ingest(b"1\n2\n3\n4\n5\n", TimeUnit::S, ',', 0, 0);
    assert_eq!(
        series(&session),
        vec![Some(vec![(0.0, 3.0, None), (0.0, 4.0, None), (0.0, 5.0, None)])]
    );
    assert_eq!(monitor(&session), vec!["4\n", "5\n"]);
    assert_eq!(session.samples_received(), 5);
    session.ingest(b"6\n", TimeUnit::S, ',', 0, 0);
    assert_eq!(
        series(&session),
        vec![Some(vec![(0.0, 4.0, None), (0.0, 5.0, None), (0.0, 6.0, None)])]
    );
    assert_eq!(monitor(&session), vec!["5\n", "6\n"]);
    assert_eq!(session.samples_received(), 6);
}

#[test]
fn two_chunks_give_the_histories_of_one() {
    let mut chunked = Session::new(100, 10);
    chunked.ingest(b"a=1,b=2\n", TimeUnit::S, ',', 1, 0);
    chunked.ingest(b"c=3\nd=4\n", TimeUnit::S, ',', 1, 0);
    let mut whole = Session::new(100, 10);
    whole.ingest(b"a=1,b=2\nc=3\nd=4\n", TimeUnit::S, ',', 1, 0);
    assert_eq!(monitor(&chunked), vec!["a=1,b=2\n", "c=3\n", "d=4\n"]);
    assert_eq!(monitor(&chunked), monitor(&whole));
    assert_eq!(series(&chunked), series(&whole));
    assert_eq!(
        series(&whole),
        vec![
            Some(vec![(1.0, 1.0, name("a")), (1.0, 3.0, name("c")), (1.0, 4.0, name("d"))]),
            Some(vec![(1.0, 2.0, name("b"))]),
        ]
    );
    assert_eq!(appearances(&chunked), appearances(&whole));
    assert_eq!(chunked.samples_received(), whole.samples_received());
}

#[test]
fn two_chunks_with_time_fields_give_the_histories_of_one() {
    let mut chunked = Session::new(100, 10);
    chunked.ingest(b"t=1,5\nt=2", TimeUnit::S, ',', 1, 0);
    chunked.ingest(b",6\nt=3,7\n", TimeUnit::S, ',', 1, 0);
    let mut whole = Session::new(100, 10);
    whole.ingest(b"t=1,5\nt=2,6\nt=3,7\n", TimeUnit::S, ',', 1, 0);
    assert_eq!(series(&chunked), series(&whole));
    assert_eq!(appearances(&chunked), appearances(&whole));
    assert_eq!(monitor(&chunked), monitor(&whole));
    assert_eq!(chunked.parser().pending(), whole.parser().pending());
}

#[test]
fn a_line_in_two_chunks_is_taken_in_once_it_is_full() {
    let mut session = Session::new(100, 10);
    session.ingest(b"a=1", TimeUnit::S, ',', 0, 0);
    assert!(session.samples_vec().is_empty());
    assert!(monitor(&session).is_empty());
    assert_eq!(session.parser().pending(), &b"a=1".to_vec());
    session.ingest(b"5\n", TimeUnit::S, ',', 0, 0);
    assert_eq!(series(&session), vec![Some(vec![(0.0, 15.0, name("a"))])]);
    assert!(session.parser().pending().is_empty());
}

#[test]
fn clear_samples_empties_everything_but_the_pending_bytes() {
    let mut session = Session::new(100, 10);
    session.ingest(b"a=1,b=2\nc=", TimeUnit::S, ',', 0, 0);
    for _ in 0..3 {
        session.clear_samples();
        assert!(session.samples_vec().is_empty());
        assert!(session.samples_appearance().is_empty());
        assert_eq!(session.series_count(), 0);
        assert!(session.serial_monitor_lines().is_empty());
        assert_eq!(session.samples_received(), 0);
        assert_eq!(session.parser().pending(), &b"c=".to_vec());
        assert_eq!(session.serial_monitor_lines().size(), 10);
    }
}

#[test]
fn after_a_clear_the_histories_are_seeded_from_scratch() {
    let mut session = Session::new(100, 10);
    session.ingest(b"a=1,b=2,c=3\n", TimeUnit::S, ',', 0, 0);
    session.clear_samples();
    session.clear_samples();
    session.ingest(b"x=7,8\n", TimeUnit::S, ',', 1, 0);
    assert_eq!(
        series(&session),
        vec![Some(vec![(1.0, 7.0, name("x"))]), Some(vec![(1.0, 8.0, None)])]
    );
    assert_eq!(
        appearances(&session),
        vec![shown("x", true, spread(0, 2)), shown("Samples 01", true, spread(1, 2))]
    );
    assert_eq!(session.series_count(), 2);
    assert_eq!(monitor(&session), vec!["x=7,8\n"]);
    assert_eq!(session.samples_received(), 2);
    assert_eq!(session.samples_vec()[0].as_ref().unwrap().size(), 100);
}

#[test]
fn reset_connection_forgets_the_pending_bytes_too() {
    let mut session = Session::new(100, 10);
    session.ingest(b"a=1\nb=", TimeUnit::S, ',', 0, 0);
    session.reset_connection();
    assert!(session.samples_vec().is_empty());
    assert!(session.samples_appearance().is_empty());
    assert!(session.serial_monitor_lines().is_empty());
    assert_eq!(session.samples_received(), 0);
    assert!(session.parser().pending().is_empty());
    session.ingest(b"2\n", TimeUnit::S, ',', 0, 0);
    assert_eq!(series(&session), vec![Some(vec![(0.0, 2.0, None)])]);
}

#[test]
fn merge_takes_in_what_a_parser_found() {
    let mut parser = Parser::default();
    let found = parser.parse_at(b"1,2\n", TimeUnit::S, ',', 0, 0);
    let mut session = Session::new(100, 10);
    session.merge(found);
    assert_eq!(
        series(&session),
        vec![Some(vec![(0.0, 1.0, None)]), Some(vec![(0.0, 2.0, None)])]
    );
    assert_eq!(monitor(&session), vec!["1,2\n"]);
    assert_eq!(session.samples_received(), 2);
    assert!(session.parser().pending().is_empty());
}

#[test]
fn lines_without_samples_only_reach_the_monitor() {
    let mut session = Session::new(100, 10);
    session.ingest(b",,\nhello\n\n", TimeUnit::S, ',', 0, 0);
    assert!(session.samples_vec().is_empty());
    assert!(session.samples_appearance().is_empty());
    assert_eq!(session.samples_received(), 0);
    assert_eq!(monitor(&session), vec![",,\n", "hello\n", "\n"]);
}

#[test]
fn histories_of_size_zero_hold_nothing() {
    let mut session = Session::new(0, 0);
    session.ingest(b"1,2\n", TimeUnit::S, ',', 0, 0);
    assert_eq!(series(&session), vec![Some(vec![]), Some(vec![])]);
    assert_eq!(session.series_count(), 2);
    assert!(monitor(&session).is_empty());
    assert_eq!(session.samples_received(), 2);
}

#[test]
fn a_pending_read_changes_nothing() {
    let mut session = Session::new(100, 10);
    session.ingest(b"1\n2", TimeUnit::S, ',', 0, 0);
    let outcome = session.poll_read_at(ReadEvent::Pending, TimeUnit::S, ',', 1, 0);
    assert_eq!(outcome, ReadOutcome::Waiting);
    assert!(!outcome.read_again());
    assert_eq!(series(&session), vec![Some(vec![(0.0, 1.0, None)])]);
    assert_eq!(session.parser().pending(), &b"2".to_vec());
}

#[test]
fn a_failed_read_changes_nothing_and_asks_for_the_next() {
    let mut session = Session::new(100, 10);
    session.ingest(b"1\n2", TimeUnit::S, ',', 0, 0);
    let outcome = session.poll_read_at(ReadEvent::Failed, TimeUnit::S, ',', 1, 0);
    assert_eq!(outcome, ReadOutcome::ReadFailed);
    assert!(outcome.read_again());
    assert_eq!(series(&session), vec![Some(vec![(0.0, 1.0, None)])]);
    assert_eq!(session.parser().pending(), &b"2".to_vec());
    assert_eq!(session.samples_received(), 1);
}

#[test]
fn data_is_taken_in_and_the_next_read_is_due() {
    let mut session = Session::new(100, 10);
    let outcome =
        session.poll_read_at(ReadEvent::Data(b"1,2\n3".to_vec()), TimeUnit::S, ',', 4, 500_000_000);
    assert_eq!(outcome, ReadOutcome::Merged);
    assert!(outcome.read_again());
    assert_eq!(
        series(&session),
        vec![Some(vec![(4.5, 1.0, None)]), Some(vec![(4.5, 2.0, None)])]
    );
    assert_eq!(session.parser().pending(), &b"3".to_vec());

    let outcome = session.poll_read_at(ReadEvent::Data(Vec::new()), TimeUnit::S, ',', 5, 0);
    assert_eq!(outcome, ReadOutcome::Merged);
    assert_eq!(session.samples_received(), 2);
    assert_eq!(session.parser().pending(), &b"3".to_vec());
}

#[test]
fn poll_read_takes_the_time_from_the_clock() {
    let start = Instant::now() - Duration::from_secs(3);
    let mut session = Session::new(100, 10);
    let outcome = session.poll_read(ReadEvent::Data(b"1\n".to_vec()), TimeUnit::S, ',', start);
    assert_eq!(outcome, ReadOutcome::Merged);
    let seen = series(&session);
    assert_eq!(seen.len(), 1);
    let first = seen[0].as_ref().unwrap();
    assert_eq!(first.len(), 1);
    assert!(first[0].0 >= 3.0 && first[0].0 < 63.0);
    assert_eq!(first[0].1, 1.0);
    assert_eq!(session.poll_read(ReadEvent::Pending, TimeUnit::S, ',', start), ReadOutcome::Waiting);
    assert_eq!(session.poll_read(ReadEvent::Failed, TimeUnit::S, ',', start), ReadOutcome::ReadFailed);
}

#[test]
fn monitor_text_joins_the_lines() {
    let mut session = Session::new(100, 2);
    assert_eq!(session.monitor_text(), "");
    session.ingest(b"1,2\r\n", TimeUnit::S, ',', 0, 0);
    assert_eq!(session.monitor_text(), "1,2\r\n");
    session.ingest(b"3\n4\n", TimeUnit::S, ',', 0, 0);
    assert_eq!(session.monitor_text(), "3\n4\n");
}

#[test]
fn clone_of_an_appearance_is_the_same() {
    let mut a = SamplesAppearance::new("x".to_string());
    a.set_visible(false);
    a.set_color(SeriesColor::Spread { index: 1, count: 4 });
    a.set_name("y".to_string());
    let copy = a.clone();
    assert_eq!(copy.name(), "y");
    assert!(!copy.visible());
    assert_eq!(copy.color(), SeriesColor::Spread { index: 1, count: 4 });
}
