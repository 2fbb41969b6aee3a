//! From lines of text to samples.
//!
//! A line holds fields between separators. A field is a value, or a name, an
//! equals sign and a value. The field named `time` or `t` gives the time of
//! the samples that follow it on its line; every other field that holds a
//! number is a sample.

use crate::chars::first_index;
use crate::chars::lemma_first_index_bounds;
use crate::chars::lemma_split_shortens;
use crate::chars::lemma_trim_shortens;
use crate::chars::total_chars;
use crate::chars::lemma_first_index_is;
use crate::chars::split;
use crate::chars::split_at_each;
use crate::chars::to_chars;
use crate::chars::to_string;
use crate::chars::trim;
use crate::chars::trimmed;
use crate::chars::views;
use crate::clock::elapsed_since;
use crate::decimal::duration_secs;
use crate::decimal::is_digit;
use crate::decimal::is_digit_char;
use crate::decimal::literal;
use crate::decimal::Decimal;
use crate::decimal::DecimalView;
use crate::lines::decoded;
use crate::lines::full_lines;
use crate::lines::left_over;
use crate::lines::every_line_decodes;
use crate::lines::lemma_full_lines_in_parts;
use crate::lines::read_full_lines;
use crate::lines::texts;
use crate::lines::total_len;
use crate::sample::Sample;
use crate::sample::SampleView;
use crate::sample::TimeUnit;
use instant::Instant;
use vstd::prelude::*;

verus! {

/// Whether `c` can be part of a number: a digit, a minus sign or a point.
pub open spec fn is_numeric(c: char) -> bool {
    is_digit(c) || c == '-' || c == '.'
}

/// The characters of `text` that can be part of a number, in order.
pub open spec fn numeric_chars(text: Seq<char>) -> Seq<char>
    decreases text.len(),
{
    if text.len() == 0 {
        text
    } else if is_numeric(text.last()) {
        numeric_chars(text.drop_last()).push(text.last())
    } else {
        numeric_chars(text.drop_last())
    }
}

/// The name of a field: what stands before its first equals sign, without the
/// white space around it. A field without an equals sign has no name.
pub open spec fn field_name(field: Seq<char>) -> Option<Seq<char>> {
    let k = first_index(field, '=');
    if 0 <= k < field.len() {
        Some(trim(field.take(k)))
    } else {
        None
    }
}

/// The text of a field's value: what follows its first equals sign, or the
/// whole field where it has none.
pub open spec fn field_value_text(field: Seq<char>) -> Seq<char> {
    let k = first_index(field, '=');
    if 0 <= k < field.len() {
        field.skip(k + 1)
    } else {
        field
    }
}

/// Whether `name` names the time field: `time` or `t`, in lower case.
pub open spec fn is_time_name(name: Seq<char>) -> bool {
    name == seq!['t', 'i', 'm', 'e'] || name == seq!['t']
}

/// What a field says.
pub enum FieldView {
    /// The field holds no number.
    Nothing,
    /// The field sets the time, here in seconds.
    Time(DecimalView),
    /// The field is a sample.
    Value { name: Option<Seq<char>>, value: DecimalView },
}

/// What `field` says, where the device counts time in `unit`.
pub open spec fn read_field(field: Seq<char>, unit: TimeUnit) -> FieldView {
    match literal(numeric_chars(field_value_text(field))) {
        None => FieldView::Nothing,
        Some(number) => {
            let name = field_name(field);
            if name.is_some() && is_time_name(name.unwrap()) {
                FieldView::Time(number.shift_left(unit.places()))
            } else {
                FieldView::Value { name, value: number }
            }
        },
    }
}

/// The time in effect after the fields `fields` of one line: the time that the
/// last time field among them gave, or `start` where none did.
pub open spec fn time_after(fields: Seq<Seq<char>>, unit: TimeUnit, start: DecimalView)
    -> DecimalView
    decreases fields.len(),
{
    if fields.len() == 0 {
        start
    } else {
        match read_field(fields.last(), unit) {
            FieldView::Time(t) => t,
            _ => time_after(fields.drop_last(), unit, start),
        }
    }
}

/// The samples of the fields `fields` of one line, each with the position of
/// its field on the line, in order. The time field takes a position too.
pub open spec fn fields_samples(fields: Seq<Seq<char>>, unit: TimeUnit, start: DecimalView) -> Seq<
    (int, SampleView),
>
    decreases fields.len(),
{
    if fields.len() == 0 {
        Seq::empty()
    } else {
        let earlier = fields_samples(fields.drop_last(), unit, start);
        match read_field(fields.last(), unit) {
            FieldView::Value { name, value } => earlier.push(
                (
                    fields.len() - 1,
                    SampleView { time: time_after(fields.drop_last(), unit, start), value, name },
                ),
            ),
            _ => earlier,
        }
    }
}

/// The samples of one line, each with the position of its field. A line that
/// holds nothing but white space has none. `start` is the time in effect when
/// the line begins.
pub open spec fn line_samples(line: Seq<char>, sep: char, unit: TimeUnit, start: DecimalView)
    -> Seq<(int, SampleView)> {
    let text = trim(line);
    if text.len() == 0 {
        Seq::empty()
    } else {
        fields_samples(split(text, sep), unit, start)
    }
}

/// The time in effect after one line: the time that its last time field
/// gave, or `start` where it has none.
pub open spec fn line_time(line: Seq<char>, sep: char, unit: TimeUnit, start: DecimalView)
    -> DecimalView {
    let text = trim(line);
    if text.len() == 0 {
        start
    } else {
        time_after(split(text, sep), unit, start)
    }
}

/// The samples of all of `lines`, line after line. Every line begins at the
/// time `start`: the time that a time field gives holds on its own line only.
pub open spec fn lines_samples(
    lines: Seq<Seq<char>>,
    sep: char,
    unit: TimeUnit,
    start: DecimalView,
) -> Seq<(int, SampleView)>
    decreases lines.len(),
{
    if lines.len() == 0 {
        Seq::empty()
    } else {
        lines_samples(lines.drop_last(), sep, unit, start) + line_samples(
            lines.last(),
            sep,
            unit,
            start,
        )
    }
}

/// `count` histories without a sample.
pub open spec fn empty_histories(count: nat) -> Seq<Seq<SampleView>> {
    Seq::new(count, |i: int| Seq::<SampleView>::empty())
}

/// `series` with empty histories behind it until there are at least `len`
/// histories.
pub open spec fn grown(series: Seq<Seq<SampleView>>, len: int) -> Seq<Seq<SampleView>> {
    if series.len() >= len {
        series
    } else {
        series + empty_histories((len - series.len()) as nat)
    }
}

/// The histories `series` after `sample` of position `position` joined them:
/// it goes to the end of the history at its own position. Where the
/// histories do not reach that far, empty histories stand at the positions
/// before it that have none.
pub open spec fn place(series: Seq<Seq<SampleView>>, position: int, sample: SampleView) -> Seq<
    Seq<SampleView>,
> {
    let reaching = grown(series, position + 1);
    reaching.update(position, reaching[position].push(sample))
}

/// The histories `series` after all of `placed` joined them, first to last.
pub open spec fn place_all(series: Seq<Seq<SampleView>>, placed: Seq<(int, SampleView)>) -> Seq<
    Seq<SampleView>,
>
    decreases placed.len(),
{
    if placed.len() == 0 {
        series
    } else {
        place(place_all(series, placed.drop_last()), placed.last().0, placed.last().1)
    }
}

/// The samples among `placed` that have the position `position`, in order.
pub open spec fn samples_at(placed: Seq<(int, SampleView)>, position: int) -> Seq<SampleView>
    decreases placed.len(),
{
    if placed.len() == 0 {
        Seq::empty()
    } else if placed.last().0 == position {
        samples_at(placed.drop_last(), position).push(placed.last().1)
    } else {
        samples_at(placed.drop_last(), position)
    }
}

/// One more than the highest position among `placed`, or zero where there is
/// no sample.
pub open spec fn reach(placed: Seq<(int, SampleView)>) -> int
    decreases placed.len(),
{
    if placed.len() == 0 {
        0
    } else if placed.last().0 + 1 > reach(placed.drop_last()) {
        placed.last().0 + 1
    } else {
        reach(placed.drop_last())
    }
}

/// The history of `series` at `position`, or an empty one where `series` does
/// not reach that far.
pub open spec fn history_at(series: Seq<Seq<SampleView>>, position: int) -> Seq<SampleView> {
    if 0 <= position < series.len() {
        series[position]
    } else {
        Seq::empty()
    }
}

/// Every sample is kept at the position of its field: after samples were
/// placed, the history at a position holds what it held before and then the
/// samples of that position, in the order in which they came. There are as
/// many histories as before, or as many as the highest position asks for.
pub proof fn lemma_place_all_by_position(
    series: Seq<Seq<SampleView>>,
    placed: Seq<(int, SampleView)>,
)
    requires
        forall|k: int| 0 <= k < placed.len() ==> (#[trigger] placed[k]).0 >= 0,
    ensures
        reach(placed) >= 0,
        place_all(series, placed).len() == if series.len() >= reach(placed) {
            series.len() as int
        } else {
            reach(placed)
        },
        forall|p: int|
            0 <= p < place_all(series, placed).len() ==> #[trigger] place_all(series, placed)[p]
                == history_at(series, p) + samples_at(placed, p),
    decreases placed.len(),
{
    if placed.len() == 0 {
        assert forall|p: int| 0 <= p < series.len() implies #[trigger] series[p] == history_at(
            series,
            p,
        ) + samples_at(placed, p) by {
            assert(series[p] + Seq::<SampleView>::empty() =~= series[p]);
        }
    } else {
        let earlier = placed.drop_last();
        assert forall|k: int| 0 <= k < earlier.len() implies (#[trigger] earlier[k]).0 >= 0 by {
            assert(earlier[k] == placed[k]);
        }
        lemma_place_all_by_position(series, earlier);
        let before = place_all(series, earlier);
        let position = placed.last().0;
        let sample = placed.last().1;
        assert(position >= 0) by {
            assert(placed[placed.len() - 1].0 >= 0);
        }
        let reaching = grown(before, position + 1);
        let after = place(before, position, sample);
        assert(after.len() == reaching.len());
        assert forall|p: int| 0 <= p < after.len() implies #[trigger] after[p] == history_at(
            series,
            p,
        ) + samples_at(placed, p) by {
            if p < before.len() {
                assert(reaching[p] == before[p]);
                assert(before[p] == history_at(series, p) + samples_at(earlier, p));
            } else {
                assert(reaching[p] == Seq::<SampleView>::empty());
                lemma_none_beyond_reach(earlier, p);
                assert(history_at(series, p) + samples_at(earlier, p) =~= Seq::<
                    SampleView,
                >::empty());
            }
            if p == position {
                assert(after[p] =~= history_at(series, p) + samples_at(placed, p));
            } else {
                assert(after[p] == reaching[p]);
                assert(after[p] =~= history_at(series, p) + samples_at(placed, p));
            }
        }
    }
}

/// No sample has a position at or beyond the reach of the samples.
pub proof fn lemma_none_beyond_reach(placed: Seq<(int, SampleView)>, position: int)
    requires
        position >= reach(placed),
    ensures
        samples_at(placed, position) == Seq::<SampleView>::empty(),
    decreases placed.len(),
{
    if placed.len() > 0 {
        lemma_none_beyond_reach(placed.drop_last(), position);
    }
}

/// What one `(position, sample)` pair stands for.
pub open spec fn placed_view(placed: (usize, Sample)) -> (int, SampleView) {
    (placed.0 as int, placed.1@)
}

/// What the pairs of `placed` stand for.
pub open spec fn placed_views(placed: Seq<(usize, Sample)>) -> Seq<(int, SampleView)> {
    Seq::new(placed.len(), |i: int| placed_view(placed[i]))
}

/// What the samples of `history` stand for.
pub open spec fn history_view(history: Seq<Sample>) -> Seq<SampleView> {
    Seq::new(history.len(), |i: int| history[i]@)
}

/// What the histories of `series` stand for.
pub open spec fn series_view(series: Seq<Vec<Sample>>) -> Seq<Seq<SampleView>> {
    Seq::new(series.len(), |i: int| history_view(series[i]@))
}

/// Where no field of a line sets the time, the time stays what it was when
/// the line began, and every sample of the line has that time.
pub proof fn lemma_no_time_field_one_time(fields: Seq<Seq<char>>, unit: TimeUnit, start: DecimalView)
    requires
        forall|i: int| 0 <= i < fields.len() ==> !(#[trigger] read_field(fields[i], unit) is Time),
    ensures
        time_after(fields, unit, start) == start,
        forall|k: int|
            0 <= k < fields_samples(fields, unit, start).len() ==> (#[trigger] fields_samples(
                fields,
                unit,
                start,
            )[k]).1.time == start,
    decreases fields.len(),
{
    if fields.len() > 0 {
        let earlier = fields.drop_last();
        assert forall|i: int| 0 <= i < earlier.len() implies !(#[trigger] read_field(
            earlier[i],
            unit,
        ) is Time) by {
            assert(earlier[i] == fields[i]);
        }
        lemma_no_time_field_one_time(earlier, unit, start);
        assert(!(read_field(fields[fields.len() - 1], unit) is Time));
    }
}

/// The samples of a line come in the order of their fields: each sample has
/// the position of its field, which lies on the line, and the positions grow
/// from one sample to the next. So a line gives no more samples than it has
/// fields.
pub proof fn lemma_positions_grow(fields: Seq<Seq<char>>, unit: TimeUnit, start: DecimalView)
    ensures
        fields_samples(fields, unit, start).len() <= fields.len(),
        forall|k: int|
            0 <= k < fields_samples(fields, unit, start).len() ==> 0 <= (#[trigger] fields_samples(
                fields,
                unit,
                start,
            )[k]).0 < fields.len(),
        forall|j: int, k: int|
            0 <= j < k < fields_samples(fields, unit, start).len() ==> (#[trigger] fields_samples(
                fields,
                unit,
                start,
            )[j]).0 < (#[trigger] fields_samples(fields, unit, start)[k]).0,
    decreases fields.len(),
{
    if fields.len() > 0 {
        lemma_positions_grow(fields.drop_last(), unit, start);
    }
}

/// A field that holds no number gives nothing: where no field of a line holds
/// a number, the line has no sample and leaves the time as it was.
pub proof fn lemma_no_number_no_sample(fields: Seq<Seq<char>>, unit: TimeUnit, start: DecimalView)
    requires
        forall|i: int|
            0 <= i < fields.len() ==> literal(
                numeric_chars(field_value_text(#[trigger] fields[i])),
            ).is_none(),
    ensures
        fields_samples(fields, unit, start) == Seq::<(int, SampleView)>::empty(),
        time_after(fields, unit, start) == start,
    decreases fields.len(),
{
    if fields.len() > 0 {
        let earlier = fields.drop_last();
        assert forall|i: int| 0 <= i < earlier.len() implies literal(
            numeric_chars(field_value_text(#[trigger] earlier[i])),
        ).is_none() by {
            assert(earlier[i] == fields[i]);
        }
        lemma_no_number_no_sample(earlier, unit, start);
        assert(literal(numeric_chars(field_value_text(fields[fields.len() - 1]))).is_none());
    }
}

/// An empty field holds no number.
pub proof fn lemma_empty_field_no_number()
    ensures
        literal(numeric_chars(field_value_text(Seq::<char>::empty()))).is_none(),
{
    let empty = Seq::<char>::empty();
    assert(first_index(empty, '=') == 0);
    assert(field_value_text(empty) == empty);
    assert(numeric_chars(empty) == empty);
    assert(first_index(empty, '.') == 0);
    assert(empty.take(0) =~= empty);
}

/// The samples of lines read one behind the other are the samples of the
/// first run of lines and then those of the second.
pub proof fn lemma_lines_samples_concat(
    first: Seq<Seq<char>>,
    second: Seq<Seq<char>>,
    sep: char,
    unit: TimeUnit,
    start: DecimalView,
)
    ensures
        lines_samples(first + second, sep, unit, start) == lines_samples(first, sep, unit, start)
            + lines_samples(second, sep, unit, start),
    decreases second.len(),
{
    if second.len() == 0 {
        assert(first + second =~= first);
        assert(lines_samples(first, sep, unit, start) + lines_samples(second, sep, unit, start)
            =~= lines_samples(first, sep, unit, start));
    } else {
        lemma_lines_samples_concat(first, second.drop_last(), sep, unit, start);
        assert((first + second).drop_last() =~= first + second.drop_last());
        assert(lines_samples(first + second, sep, unit, start) =~= lines_samples(
            first,
            sep,
            unit,
            start,
        ) + lines_samples(second, sep, unit, start));
    }
}

/// Samples placed in two goes end where they end when placed in one.
pub proof fn lemma_place_all_concat(
    series: Seq<Seq<SampleView>>,
    first: Seq<(int, SampleView)>,
    second: Seq<(int, SampleView)>,
)
    ensures
        place_all(series, first + second) == place_all(place_all(series, first), second),
    decreases second.len(),
{
    if second.len() == 0 {
        assert(first + second =~= first);
    } else {
        lemma_place_all_concat(series, first, second.drop_last());
        assert((first + second).drop_last() =~= first + second.drop_last());
    }
}

/// Bytes that arrive in two parts are read as the same bytes in one part,
/// where every line of the first part decodes: the lines are the lines of the
/// first part and then those of the second, the samples are as many, and the
/// history of every position holds the samples that the first part brought
/// to that position and then those that the second brought. What waits for
/// the rest of its line is the same too.
pub proof fn lemma_two_parts_as_one(
    pending: Seq<u8>,
    first: Seq<u8>,
    second: Seq<u8>,
    sep: char,
    unit: TimeUnit,
    start: DecimalView,
)
    requires
        every_line_decodes(pending + first),
    ensures
        ({
            let one = parse_lines(decoded(full_lines(pending + first)), sep, unit, start);
            let waiting = left_over(pending + first);
            let two = parse_lines(decoded(full_lines(waiting + second)), sep, unit, start);
            let whole = parse_lines(
                decoded(full_lines(pending + (first + second))),
                sep,
                unit,
                start,
            );
            &&& whole.full_lines == one.full_lines + two.full_lines
            &&& whole.n_new_samples == one.n_new_samples + two.n_new_samples
            &&& whole.samples_vec == place_all(
                one.samples_vec,
                lines_samples(two.full_lines, sep, unit, start),
            )
            &&& forall|p: int|
                0 <= p < whole.samples_vec.len() ==> #[trigger] whole.samples_vec[p] == history_at(
                    one.samples_vec,
                    p,
                ) + history_at(two.samples_vec, p)
            &&& whole.samples_vec.len() == if one.samples_vec.len() >= two.samples_vec.len() {
                one.samples_vec.len()
            } else {
                two.samples_vec.len()
            }
            &&& left_over(pending + (first + second)) == left_over(waiting + second)
        }),
{
    let a = pending + first;
    assert(pending + (first + second) =~= a + second);
    lemma_full_lines_in_parts(a, second);
    let l1 = decoded(full_lines(a));
    let l2 = decoded(full_lines(left_over(a) + second));
    assert(decoded(full_lines(a + second)) =~= l1 + l2);
    lemma_lines_samples_concat(l1, l2, sep, unit, start);
    let s1 = lines_samples(l1, sep, unit, start);
    let s2 = lines_samples(l2, sep, unit, start);
    lemma_place_all_concat(Seq::empty(), s1, s2);
    lemma_lines_positions(l1, sep, unit, start);
    lemma_lines_positions(l2, sep, unit, start);
    let one = place_all(Seq::empty(), s1);
    let two = place_all(Seq::empty(), s2);
    let whole = place_all(one, s2);
    lemma_place_all_by_position(Seq::empty(), s2);
    lemma_place_all_by_position(one, s2);
    assert forall|p: int| 0 <= p < whole.len() implies #[trigger] whole[p] == history_at(one, p)
        + history_at(two, p) by {
        if p < two.len() {
            assert(two[p] =~= samples_at(s2, p));
        } else {
            lemma_none_beyond_reach(s2, p);
        }
    }
}

/// The positions of the samples of lines are positions on a line: none is
/// below zero.
pub proof fn lemma_lines_positions(
    lines: Seq<Seq<char>>,
    sep: char,
    unit: TimeUnit,
    start: DecimalView,
)
    ensures
        forall|k: int|
            0 <= k < lines_samples(lines, sep, unit, start).len() ==> (#[trigger] lines_samples(
                lines,
                sep,
                unit,
                start,
            )[k]).0 >= 0,
    decreases lines.len(),
{
    if lines.len() > 0 {
        lemma_lines_positions(lines.drop_last(), sep, unit, start);
        let text = trim(lines.last());
        if text.len() > 0 {
            lemma_positions_grow(split(text, sep), unit, start);
        }
        let earlier = lines_samples(lines.drop_last(), sep, unit, start);
        let last = line_samples(lines.last(), sep, unit, start);
        let all = lines_samples(lines, sep, unit, start);
        assert forall|k: int| 0 <= k < all.len() implies (#[trigger] all[k]).0 >= 0 by {
            if k < earlier.len() {
                assert(all[k] == earlier[k]);
            } else {
                assert(all[k] == last[k - earlier.len()]);
            }
        }
    }
}

/// Picking the characters of a number out of a text makes it no longer.
pub proof fn lemma_numeric_chars_shortens(text: Seq<char>)
    ensures
        numeric_chars(text).len() <= text.len(),
    decreases text.len(),
{
    if text.len() > 0 {
        lemma_numeric_chars_shortens(text.drop_last());
    }
}

/// A field that says something holds at least one character.
pub proof fn lemma_telling_field_not_empty(field: Seq<char>, unit: TimeUnit)
    requires
        !(read_field(field, unit) is Nothing),
    ensures
        field.len() >= 1,
{
    let value_text = field_value_text(field);
    let numeric = numeric_chars(value_text);
    lemma_numeric_chars_shortens(value_text);
    lemma_first_index_bounds(field, '=');
    if numeric.len() == 0 {
        assert(first_index(numeric, '.') == 0);
        assert(numeric.take(0) =~= numeric);
    }
}

/// A line gives no more samples than its fields hold characters.
pub proof fn lemma_fields_samples_within_chars(
    fields: Seq<Seq<char>>,
    unit: TimeUnit,
    start: DecimalView,
)
    ensures
        fields_samples(fields, unit, start).len() <= total_chars(fields),
    decreases fields.len(),
{
    if fields.len() > 0 {
        lemma_fields_samples_within_chars(fields.drop_last(), unit, start);
        if !(read_field(fields.last(), unit) is Nothing) {
            lemma_telling_field_not_empty(fields.last(), unit);
        }
    }
}

/// Lines give no more samples than they hold characters.
pub proof fn lemma_lines_samples_within_chars(
    lines: Seq<Seq<char>>,
    sep: char,
    unit: TimeUnit,
    start: DecimalView,
)
    ensures
        lines_samples(lines, sep, unit, start).len() <= total_chars(lines),
    decreases lines.len(),
{
    if lines.len() > 0 {
        lemma_lines_samples_within_chars(lines.drop_last(), sep, unit, start);
        let line = lines.last();
        let text = trim(line);
        lemma_trim_shortens(line);
        if text.len() > 0 {
            lemma_split_shortens(text, sep);
            lemma_fields_samples_within_chars(split(text, sep), unit, start);
        }
    }
}

/// The parser finds no more samples than there are bytes: those kept from
/// earlier calls and those that arrived.
pub proof fn lemma_samples_within_bytes(
    pending: Seq<u8>,
    serial_data: Seq<u8>,
    sep: char,
    unit: TimeUnit,
    start: DecimalView,
)
    ensures
        parse_lines(decoded(full_lines(pending + serial_data)), sep, unit, start).n_new_samples
            <= pending.len() + serial_data.len(),
{
    let bytes = pending + serial_data;
    crate::lines::lemma_full_lines_chars(bytes);
    lemma_lines_samples_within_chars(decoded(full_lines(bytes)), sep, unit, start);
}

/// What a field says.
#[derive(Debug)]
pub enum Field {
    /// The field holds no number.
    Nothing,
    /// The field sets the time, here in seconds.
    Time(Decimal),
    /// The field is a sample.
    Value { name: Option<String>, value: Decimal },
}

impl View for Field {
    type V = FieldView;

    open spec fn view(&self) -> FieldView {
        match self {
            Field::Nothing => FieldView::Nothing,
            Field::Time(t) => FieldView::Time(t@),
            Field::Value { name, value } => FieldView::Value {
                name: crate::sample::name_view(*name),
                value: value@,
            },
        }
    }
}

/// Whether `c` can be part of a number.
pub fn is_numeric_char(c: char) -> (numeric: bool)
    ensures
        numeric == is_numeric(c),
{
    is_digit_char(c) || c == '-' || c == '.'
}

/// The characters of `text` that can be part of a number, in order.
pub fn keep_numeric(text: &[char]) -> (kept: Vec<char>)
    ensures
        kept@ == numeric_chars(text@),
{
    let mut kept: Vec<char> = Vec::new();
    let mut i: usize = 0;
    while i < text.len()
        invariant
            i <= text.len(),
            kept@ == numeric_chars(text@.take(i as int)),
        decreases text.len() - i,
    {
        let c = text[i];
        proof {
            let now = text@.take(i + 1);
            assert(now.drop_last() =~= text@.take(i as int));
            assert(now.last() == c);
        }
        if is_numeric_char(c) {
            kept.push(c);
        }
        i += 1;
    }
    assert(text@.take(text@.len() as int) =~= text@);
    kept
}

/// Whether `name` names the time field.
pub fn is_time(name: &[char]) -> (time: bool)
    ensures
        time == is_time_name(name@),
{
    let n = name.len();
    if n == 1 {
        let time = name[0] == 't';
        proof {
            if time {
                assert(name@ =~= seq!['t']);
            } else {
                assert(seq!['t'][0] == 't');
            }
        }
        time
    } else if n == 4 {
        let time = name[0] == 't' && name[1] == 'i' && name[2] == 'm' && name[3] == 'e';
        proof {
            let word = seq!['t', 'i', 'm', 'e'];
            if time {
                assert(name@ =~= word);
            } else {
                assert(word[0] == 't' && word[1] == 'i' && word[2] == 'm' && word[3] == 'e');
            }
        }
        time
    } else {
        proof {
            assert(seq!['t', 'i', 'm', 'e'].len() == 4);
            assert(seq!['t'].len() == 1);
        }
        false
    }
}

/// Reads one field.
pub fn read_one_field(field: &[char], unit: TimeUnit) -> (said: Field)
    ensures
        said@ == read_field(field@, unit),
{
    let n = field.len();
    let mut k: usize = 0;
    while k < n && field[k] != '='
        invariant
            k <= n,
            n == field.len(),
            forall|j: int| 0 <= j < k ==> field@[j] != '=',
        decreases n - k,
    {
        k += 1;
    }
    proof {
        lemma_first_index_is(field@, '=', k as int);
    }
    let named = k < n;
    let value_text = if named {
        vstd::slice::slice_subrange(field, k + 1, n)
    } else {
        field
    };
    assert(value_text@ =~= field_value_text(field@));
    let numeric = keep_numeric(value_text);
    match Decimal::parse(numeric.as_slice()) {
        None => Field::Nothing,
        Some(number) => {
            if named {
                let name = trimmed(vstd::slice::slice_subrange(field, 0, k));
                assert(name@ == trim(field@.take(k as int)));
                if is_time(name.as_slice()) {
                    Field::Time(unit.convert_to_secs(&number))
                } else {
                    Field::Value { name: Some(to_string(name.as_slice())), value: number }
                }
            } else {
                Field::Value { name: None, value: number }
            }
        },
    }
}

/// Reads the samples of one line, each with the position of its field. Every
/// sample gets the time that the last time field before it on the line gave,
/// or `start` where there was none. The time in effect at the end of the line
/// is returned with the samples.
pub fn read_line(line: &str, sep: char, unit: TimeUnit, start: &Decimal) -> (found: (
    Vec<(usize, Sample)>,
    Decimal,
))
    ensures
        placed_views(found.0@) == line_samples(line@, sep, unit, start@),
        found.1@ == line_time(line@, sep, unit, start@),
{
    let chars = to_chars(line);
    let text = trimmed(chars.as_slice());
    let mut placed: Vec<(usize, Sample)> = Vec::new();
    if text.len() == 0 {
        assert(placed_views(placed@) =~= Seq::<(int, SampleView)>::empty());
        return (placed, start.clone());
    }
    let fields = split_at_each(text.as_slice(), sep);
    let ghost all = views(fields@);
    let ghost begin = start@;
    let mut time = start.clone();
    let mut i: usize = 0;
    proof {
        assert(all.take(0) =~= Seq::<Seq<char>>::empty());
        assert(placed_views(placed@) =~= Seq::<(int, SampleView)>::empty());
    }
    while i < fields.len()
        invariant
            i <= fields.len(),
            all == views(fields@),
            time@ == time_after(all.take(i as int), unit, begin),
            placed_views(placed@) == fields_samples(all.take(i as int), unit, begin),
        decreases fields.len() - i,
    {
        proof {
            let now = all.take(i + 1);
            assert(now.drop_last() =~= all.take(i as int));
            assert(now.last() == fields@[i as int]@);
        }
        match read_one_field(fields[i].as_slice(), unit) {
            Field::Nothing => {},
            Field::Time(t) => {
                time = t;
            },
            Field::Value { name, value } => {
                let sample = Sample::new(time.clone(), value, name);
                let ghost before = placed@;
                placed.push((i, sample));
                proof {
                    assert(placed_views(placed@) =~= placed_views(before).push(
                        placed_view((i, sample)),
                    ));
                }
            },
        }
        i += 1;
    }
    assert(all.take(fields@.len() as int) =~= all);
    (placed, time)
}

/// Puts `sample` into the history at `position`. Where `series` does not
/// reach that far, empty histories are put behind it first.
pub fn place_sample(series: &mut Vec<Vec<Sample>>, position: usize, sample: Sample)
    ensures
        series_view(final(series)@) == place(series_view(old(series)@), position as int, sample@),
{
    let ghost before = series_view(series@);
    assert(series_view(series@) =~= before + empty_histories(0));
    while series.len() <= position
        invariant
            before.len() <= series@.len(),
            series@.len() == before.len() || series@.len() <= position + 1,
            series_view(series@) == before + empty_histories((series@.len() - before.len()) as nat),
        decreases position + 1 - series.len(),
    {
        let history: Vec<Sample> = Vec::new();
        assert(history_view(history@) =~= Seq::<SampleView>::empty());
        let ghost prev = series@;
        series.push(history);
        assert(series_view(series@) =~= series_view(prev).push(Seq::<SampleView>::empty()));
        assert(series_view(series@) =~= before + empty_histories(
            (series@.len() - before.len()) as nat,
        ));
    }
    let ghost reaching = series_view(series@);
    assert(reaching =~= grown(before, position + 1));
    let ghost held = series@;
    series[position].push(sample);
    assert(series_view(series@) =~= reaching.update(
        position as int,
        reaching[position as int].push(sample@),
    )) by {
        assert(history_view(series@[position as int]@) =~= history_view(held[position as int]@).push(
            sample@,
        ));
        assert forall|j: int| 0 <= j < series@.len() && j != position implies series@[j]
            == held[j] by {}
    }
}

/// What one call of the parser found, as mathematics sees it.
pub struct ParseResultView {
    pub full_lines: Seq<Seq<char>>,
    pub samples_vec: Seq<Seq<SampleView>>,
    pub n_new_samples: nat,
}

/// What the parser finds in the full lines `lines`: the lines themselves, the
/// samples of all of them sorted into histories by position, and the number
/// of samples.
pub open spec fn parse_lines(lines: Seq<Seq<char>>, sep: char, unit: TimeUnit, start: DecimalView)
    -> ParseResultView {
    let placed = lines_samples(lines, sep, unit, start);
    ParseResultView {
        full_lines: lines,
        samples_vec: place_all(Seq::empty(), placed),
        n_new_samples: placed.len(),
    }
}

/// In what the parser finds, the history of a position holds exactly the
/// samples of the fields at that position, in the order of their lines.
/// There are as many histories as the highest position with a sample asks
/// for; a position below it without a sample, such as that of the time
/// field, has an empty history.
pub proof fn lemma_parse_lines_by_position(
    lines: Seq<Seq<char>>,
    sep: char,
    unit: TimeUnit,
    start: DecimalView,
)
    ensures
        parse_lines(lines, sep, unit, start).samples_vec.len() == reach(
            lines_samples(lines, sep, unit, start),
        ),
        forall|p: int|
            0 <= p < parse_lines(lines, sep, unit, start).samples_vec.len()
                ==> #[trigger] parse_lines(lines, sep, unit, start).samples_vec[p] == samples_at(
                lines_samples(lines, sep, unit, start),
                p,
            ),
{
    let placed = lines_samples(lines, sep, unit, start);
    lemma_lines_positions(lines, sep, unit, start);
    lemma_place_all_by_position(Seq::empty(), placed);
    let found = place_all(Seq::empty(), placed);
    assert forall|p: int| 0 <= p < found.len() implies #[trigger] found[p] == samples_at(
        placed,
        p,
    ) by {
        assert(Seq::<SampleView>::empty() + samples_at(placed, p) =~= samples_at(placed, p));
    }
}

/// What one call of the parser found.
#[derive(Debug)]
pub struct ParseResult {
    full_lines: Vec<String>,
    /// Outer vec is one for each position, inner vec is the history. A
    /// position without a sample has an empty history.
    samples_vec: Vec<Vec<Sample>>,
    n_new_samples: u64,
}

impl View for ParseResult {
    type V = ParseResultView;

    closed spec fn view(&self) -> ParseResultView {
        ParseResultView {
            full_lines: texts(self.full_lines@),
            samples_vec: series_view(self.samples_vec@),
            n_new_samples: self.n_new_samples as nat,
        }
    }
}

/// A copy of `lines`.
fn clone_lines(lines: &Vec<String>) -> (copy: Vec<String>)
    ensures
        texts(copy@) == texts(lines@),
{
    let mut copy: Vec<String> = Vec::new();
    let mut i: usize = 0;
    while i < lines.len()
        invariant
            i <= lines.len(),
            texts(copy@) == texts(lines@.take(i as int)),
        decreases lines.len() - i,
    {
        let line = lines[i].clone();
        assert(texts(copy@.push(line)) =~= texts(lines@.take(i + 1))) by {
            assert(texts(copy@).len() == i);
            assert forall|j: int| 0 <= j < i implies copy@[j]@ == lines@[j]@ by {
                assert(texts(copy@)[j] == texts(lines@.take(i as int))[j]);
            }
        }
        copy.push(line);
        i += 1;
    }
    assert(lines@.take(lines@.len() as int) =~= lines@);
    copy
}

/// A copy of `history`.
fn clone_history(history: &Vec<Sample>) -> (copy: Vec<Sample>)
    ensures
        history_view(copy@) == history_view(history@),
{
    let mut copy: Vec<Sample> = Vec::new();
    let mut i: usize = 0;
    while i < history.len()
        invariant
            i <= history.len(),
            history_view(copy@) == history_view(history@.take(i as int)),
        decreases history.len() - i,
    {
        let sample = history[i].clone();
        assert(history_view(copy@.push(sample)) =~= history_view(history@.take(i + 1))) by {
            assert(history_view(copy@).len() == i);
            assert forall|j: int| 0 <= j < i implies copy@[j]@ == history@[j]@ by {
                assert(history_view(copy@)[j] == history_view(history@.take(i as int))[j]);
            }
        }
        copy.push(sample);
        i += 1;
    }
    assert(history@.take(history@.len() as int) =~= history@);
    copy
}

/// A copy of `series`.
fn clone_series(series: &Vec<Vec<Sample>>) -> (copy: Vec<Vec<Sample>>)
    ensures
        series_view(copy@) == series_view(series@),
{
    let mut copy: Vec<Vec<Sample>> = Vec::new();
    let mut i: usize = 0;
    while i < series.len()
        invariant
            i <= series.len(),
            series_view(copy@) == series_view(series@.take(i as int)),
        decreases series.len() - i,
    {
        let history = clone_history(&series[i]);
        assert(series_view(copy@.push(history)) =~= series_view(series@.take(i + 1))) by {
            assert(series_view(copy@).len() == i);
            assert forall|j: int| 0 <= j < i implies history_view(copy@[j]@) == history_view(
                series@[j]@,
            ) by {
                assert(series_view(copy@)[j] == series_view(series@.take(i as int))[j]);
            }
        }
        copy.push(history);
        i += 1;
    }
    assert(series@.take(series@.len() as int) =~= series@);
    copy
}

impl Clone for ParseResult {
    fn clone(&self) -> (copy: Self)
        ensures
            copy@ == self@,
    {
        ParseResult {
            full_lines: clone_lines(&self.full_lines),
            samples_vec: clone_series(&self.samples_vec),
            n_new_samples: self.n_new_samples,
        }
    }
}

impl ParseResult {
    /// The full lines that were read, each with its newline.
    pub fn full_lines(&self) -> (lines: &Vec<String>)
        ensures
            texts(lines@) == self@.full_lines,
    {
        &self.full_lines
    }

    /// The samples that were read: one history for each position.
    pub fn samples_vec(&self) -> (series: &Vec<Vec<Sample>>)
        ensures
            series_view(series@) == self@.samples_vec,
    {
        &self.samples_vec
    }

    /// How many samples were read.
    pub fn n_new_samples(&self) -> (n: u64)
        ensures
            n == self@.n_new_samples,
    {
        self.n_new_samples
    }

    /// Takes the result apart.
    pub fn into_parts(self) -> (parts: (Vec<String>, Vec<Vec<Sample>>, u64))
        ensures
            texts(parts.0@) == self@.full_lines,
            series_view(parts.1@) == self@.samples_vec,
            parts.2 == self@.n_new_samples,
    {
        (self.full_lines, self.samples_vec, self.n_new_samples)
    }
}

/// Pairs put one behind the other stand for what both stand for.
pub proof fn lemma_placed_views_concat(a: Seq<(usize, Sample)>, b: Seq<(usize, Sample)>)
    ensures
        placed_views(a + b) == placed_views(a) + placed_views(b),
{
    assert(placed_views(a + b) =~= placed_views(a) + placed_views(b));
}

/// Reads the samples out of full lines that were cut from the stream already.
/// `start` is the time at which every line begins.
pub fn read_lines(full_lines: Vec<String>, sep: char, unit: TimeUnit, start: &Decimal) -> (found:
    ParseResult)
    ensures
        found@ == parse_lines(texts(full_lines@), sep, unit, start@),
{
    let ghost all = texts(full_lines@);
    let ghost begin = start@;
    let mut placed: Vec<(usize, Sample)> = Vec::new();
    let mut i: usize = 0;
    proof {
        assert(all.take(0) =~= Seq::<Seq<char>>::empty());
        assert(placed_views(placed@) =~= Seq::<(int, SampleView)>::empty());
    }
    while i < full_lines.len()
        invariant
            i <= full_lines.len(),
            all == texts(full_lines@),
            placed_views(placed@) == lines_samples(all.take(i as int), sep, unit, begin),
            begin == start@,
        decreases full_lines.len() - i,
    {
        let (mut found, _) = read_line(full_lines[i].as_str(), sep, unit, start);
        proof {
            let now = all.take(i + 1);
            assert(now.drop_last() =~= all.take(i as int));
            assert(now.last() == full_lines@[i as int]@);
            lemma_placed_views_concat(placed@, found@);
        }
        placed.append(&mut found);
        i += 1;
    }
    assert(all.take(full_lines@.len() as int) =~= all);
    let n_new_samples = placed.len() as u64;
    let mut samples_vec: Vec<Vec<Sample>> = Vec::new();
    let ghost pairs = placed_views(placed@);
    assert(series_view(samples_vec@) =~= Seq::<Seq<SampleView>>::empty());
    for pair in it: placed
        invariant
            it.seq() == placed@,
            pairs == placed_views(placed@),
            series_view(samples_vec@) == place_all(Seq::empty(), pairs.take(it.index() as int)),
    {
        proof {
            let now = pairs.take(it.index() + 1);
            assert(now.drop_last() =~= pairs.take(it.index() as int));
            assert(now.last() == placed_view(pair));
        }
        place_sample(&mut samples_vec, pair.0, pair.1);
    }
    assert(pairs.take(pairs.len() as int) =~= pairs);
    ParseResult { full_lines, samples_vec, n_new_samples }
}

/// The parser: it keeps the bytes that were received and are not yet part of
/// a full line.
#[derive(Debug)]
pub struct Parser {
    buf: Vec<u8>,
}

impl View for Parser {
    type V = Seq<u8>;

    /// The bytes kept for the next call.
    closed spec fn view(&self) -> Seq<u8> {
        self.buf@
    }
}

impl Clone for Parser {
    fn clone(&self) -> (copy: Self)
        ensures
            copy@ == self@,
    {
        let buf = self.buf.clone();
        assert(buf@ =~= self.buf@);
        Parser { buf }
    }
}

impl Default for Parser {
    fn default() -> (parser: Self)
        ensures
            parser@ == Seq::<u8>::empty(),
    {
        Parser { buf: Vec::new() }
    }
}

impl Parser {
    /// Forgets the bytes kept.
    pub fn clear(&mut self)
        ensures
            final(self)@ == Seq::<u8>::empty(),
    {
        self.buf.clear();
    }

    /// The bytes kept for the next call.
    pub fn pending(&self) -> (bytes: &Vec<u8>)
        ensures
            bytes@ == self@,
    {
        &self.buf
    }

    /// Takes a chunk of bytes as it came from the device. The chunk joins the
    /// bytes kept from earlier calls. The full lines among them are handed
    /// out, each with its newline, together with the number of bytes that
    /// they hold; as many bytes leave the front of the bytes kept. What
    /// follows the last newline stays for the next call.
    pub fn feed(&mut self, chunk: &[u8]) -> (found: (Vec<String>, usize))
        ensures
            texts(found.0@) == decoded(full_lines(old(self)@ + chunk@)),
            found.1 == total_len(full_lines(old(self)@ + chunk@)),
            final(self)@ == left_over(old(self)@ + chunk@),
    {
        self.buf.extend_from_slice(chunk);
        let ghost all = self.buf@;
        assert(all =~= old(self)@ + chunk@);
        // Read out full lines
        let (full_lines, bytes_read) = read_full_lines(self.buf.as_slice());
        // Drain the buffer by the bytes length of the read full lines
        let rest = self.buf.split_off(bytes_read);
        assert(rest@ =~= all.skip(bytes_read as int));
        self.buf = rest;
        (full_lines, bytes_read)
    }

    /// Takes the bytes `serial_data` that a device sent, `elapsed_secs`
    /// seconds and `elapsed_nanos` nanoseconds after the session began. The
    /// bytes join those kept from earlier calls. The full lines among them
    /// are read, and as many bytes as these lines hold leave the front of the
    /// bytes kept.
    pub fn parse_at(
        &mut self,
        serial_data: &[u8],
        time_unit: TimeUnit,
        value_separator: char,
        elapsed_secs: u64,
        elapsed_nanos: u32,
    ) -> (found: ParseResult)
        requires
            elapsed_nanos < 1_000_000_000,
        ensures
            final(self)@ == left_over(old(self)@ + serial_data@),
            found@ == parse_lines(
                decoded(full_lines(old(self)@ + serial_data@)),
                value_separator,
                time_unit,
                duration_secs(elapsed_secs, elapsed_nanos),
            ),
    {
        let (full_lines, _) = self.feed(serial_data);
        let start = Decimal::from_duration(elapsed_secs, elapsed_nanos);
        read_lines(full_lines, value_separator, time_unit, &start)
    }

    /// Takes the bytes `serial_data` that a device sent just now, in a
    /// session that began at `start_time`. The clock decides the time of the
    /// samples that come without one; all else is as in [`Parser::parse_at`].
    pub fn parse_from_serial_data(
        &mut self,
        serial_data: &[u8],
        time_unit: TimeUnit,
        value_separator: char,
        start_time: Instant,
    ) -> (found: ParseResult)
        ensures
            final(self)@ == left_over(old(self)@ + serial_data@),
            exists|secs: u64, nanos: u32|
                nanos < 1_000_000_000 && found@ == #[trigger] parse_lines(
                    decoded(full_lines(old(self)@ + serial_data@)),
                    value_separator,
                    time_unit,
                    duration_secs(secs, nanos),
                ),
    {
        let (secs, nanos) = elapsed_since(start_time);
        self.parse_at(serial_data, time_unit, value_separator, secs, nanos)
    }
}

} // verus!
