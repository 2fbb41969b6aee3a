//! The state of one session: the histories of samples by position, how each
//! is shown, the lines for the monitor, and the running count of samples.

use crate::appearance::appearance_views;
use crate::appearance::count_some;
use crate::appearance::slot_appearance;
use crate::appearance::new_appearance;
use crate::appearance::placeholder;
use crate::appearance::placeholder_name;
use crate::appearance::recolor_samples_appearances;
use crate::appearance::recolored;
use crate::appearance::AppearanceView;
use crate::appearance::SamplesAppearance;
use crate::appearance::SeriesColor;
use crate::clock::elapsed_since;
use crate::decimal::duration_secs;
use crate::fixedsizebuffer::after_add_all;
use crate::fixedsizebuffer::lemma_add_all_keeps_newest;
use crate::fixedsizebuffer::newest;
use crate::fixedsizebuffer::FixedSizeBuffer;
use crate::lines::decoded;
use crate::lines::full_lines;
use crate::lines::left_over;
use crate::lines::texts;
use crate::parser::history_at;
use crate::parser::history_view;
use crate::parser::parse_lines;
use crate::parser::series_view;
use crate::parser::ParseResult;
use crate::parser::ParseResultView;
use crate::parser::Parser;
use crate::sample::Sample;
use crate::sample::SampleView;
use crate::sample::TimeUnit;
use instant::Instant;
use vstd::prelude::*;
use vstd::string::StringExecFns;

verus! {

/// How many samples a history holds at most, on a desktop.
pub const SAMPLES_BUF_SIZE: usize = 16384;

/// How many samples a history holds at most, in a browser.
pub const SAMPLES_BUF_SIZE_WEB: usize = 2048;

/// How many lines the monitor holds at most, on a desktop.
pub const MONITOR_LINES_BUF_SIZE: usize = 512;

/// How many lines the monitor holds at most, in a browser.
pub const MONITOR_LINES_BUF_SIZE_WEB: usize = 128;

/// How many bytes are asked of the device at a time.
pub const READ_BUF_SIZE: usize = 32;

/// A session as mathematics sees it.
pub struct SessionView {
    /// The history of each position, oldest sample first. A position that
    /// has not brought a sample yet has no history.
    pub series: Seq<Option<Seq<SampleView>>>,
    /// How each history is shown. A position has an appearance exactly where
    /// it has a history.
    pub appearances: Seq<Option<AppearanceView>>,
    /// The lines for the monitor, oldest first.
    pub monitor: Seq<Seq<char>>,
    /// How many samples were taken in since the last reset.
    pub samples_received: nat,
    /// The bytes that wait for the rest of their line.
    pub pending: Seq<u8>,
    /// How many samples a history holds at most.
    pub samples_size: nat,
    /// How many lines the monitor holds at most.
    pub monitor_size: nat,
}

/// The name of a new history at `position` whose first samples are
/// `history`: the name of the first sample, or the placeholder where the
/// first sample has none.
pub open spec fn seed_name(history: Seq<SampleView>, position: nat) -> Seq<char> {
    if history.len() > 0 && history[0].name.is_some() {
        history[0].name.unwrap()
    } else {
        placeholder_name(position)
    }
}

/// What `slots` holds at `position`, or nothing where it does not reach that
/// far.
pub open spec fn slot_at<A>(slots: Seq<Option<A>>, position: int) -> Option<A> {
    if 0 <= position < slots.len() {
        slots[position]
    } else {
        None
    }
}

/// The longer of two lengths.
pub open spec fn longer(a: nat, b: nat) -> nat {
    if a >= b {
        a
    } else {
        b
    }
}

/// The history of one position after the samples `added` joined it. Where
/// no sample is added, nothing changes: a position without a history stays
/// without one. Otherwise the samples go behind those held, into a new
/// history where there was none, and the oldest leave where there are more
/// than `size`.
pub open spec fn merged_history(held: Option<Seq<SampleView>>, size: nat, added: Seq<SampleView>)
    -> Option<Seq<SampleView>> {
    if added.len() == 0 {
        held
    } else {
        Some(
            after_add_all(
                match held {
                    Some(history) => history,
                    None => Seq::empty(),
                },
                size,
                added,
            ),
        )
    }
}

/// The histories `series` after the new samples `new` joined them, each at
/// its own position.
pub open spec fn merged_series(
    series: Seq<Option<Seq<SampleView>>>,
    size: nat,
    new: Seq<Seq<SampleView>>,
) -> Seq<Option<Seq<SampleView>>> {
    Seq::new(
        longer(series.len(), new.len()),
        |i: int| merged_history(slot_at(series, i), size, history_at(new, i)),
    )
}

/// The appearance of one position after the samples `added` joined its
/// history, before any colour is spread anew. A history that is new gets an
/// appearance, visible and named after its first sample. All else stays.
pub open spec fn seeded_appearance(
    held: Option<AppearanceView>,
    added: Seq<SampleView>,
    position: nat,
) -> Option<AppearanceView> {
    if held.is_some() || added.len() == 0 {
        held
    } else {
        Some(new_appearance(seed_name(added, position)))
    }
}

/// The appearances `appearances` after the new samples `new` joined the
/// histories, before any colour is spread anew.
pub open spec fn seeded_appearances(
    appearances: Seq<Option<AppearanceView>>,
    new: Seq<Seq<SampleView>>,
) -> Seq<Option<AppearanceView>> {
    Seq::new(
        longer(appearances.len(), new.len()),
        |i: int| seeded_appearance(slot_at(appearances, i), history_at(new, i), i as nat),
    )
}

/// Whether the new samples `new` bring a history that is new: samples for a
/// position that has no appearance yet.
pub open spec fn brings_new_history(
    appearances: Seq<Option<AppearanceView>>,
    new: Seq<Seq<SampleView>>,
) -> bool
    decreases new.len(),
{
    if new.len() == 0 {
        false
    } else {
        brings_new_history(appearances, new.drop_last()) || (new.last().len() > 0 && slot_at(
            appearances,
            new.len() - 1,
        ).is_none())
    }
}

/// The appearances `appearances` after the new samples `new` joined the
/// histories. Where no history is new, nothing changes. Otherwise every new
/// history gets an appearance, visible and named after its first sample, and
/// the colours are spread evenly over all the appearances that there are.
pub open spec fn merged_appearances(
    appearances: Seq<Option<AppearanceView>>,
    new: Seq<Seq<SampleView>>,
) -> Seq<Option<AppearanceView>> {
    if brings_new_history(appearances, new) {
        recolored(seeded_appearances(appearances, new))
    } else {
        seeded_appearances(appearances, new)
    }
}

/// Whether there is an appearance exactly at the positions that have a
/// history.
pub open spec fn aligned_slots(
    series: Seq<Option<Seq<SampleView>>>,
    appearances: Seq<Option<AppearanceView>>,
) -> bool {
    &&& series.len() == appearances.len()
    &&& forall|i: int|
        0 <= i < series.len() ==> ((#[trigger] series[i]).is_some() <==> appearances[i].is_some())
}

impl SessionView {
    /// The session after its samples were cleared: no history, no appearance,
    /// no line in the monitor, and the count at zero. The pending bytes stay.
    pub open spec fn cleared(self) -> SessionView {
        SessionView {
            series: Seq::empty(),
            appearances: Seq::empty(),
            monitor: Seq::empty(),
            samples_received: 0,
            ..self
        }
    }

    /// The session after a reset: cleared, and without pending bytes.
    pub open spec fn reset(self) -> SessionView {
        SessionView { pending: Seq::empty(), ..self.cleared() }
    }

    /// The session after it took in what the parser found.
    pub open spec fn merged(self, found: ParseResultView) -> SessionView {
        SessionView {
            series: merged_series(self.series, self.samples_size, found.samples_vec),
            appearances: merged_appearances(self.appearances, found.samples_vec),
            monitor: after_add_all(self.monitor, self.monitor_size, found.full_lines),
            samples_received: self.samples_received + found.n_new_samples,
            ..self
        }
    }

    /// What the parser finds when `serial_data` arrives at the time `secs`
    /// seconds and `nanos` nanoseconds.
    pub open spec fn found(
        self,
        serial_data: Seq<u8>,
        unit: TimeUnit,
        sep: char,
        secs: u64,
        nanos: u32,
    ) -> ParseResultView {
        parse_lines(
            decoded(full_lines(self.pending + serial_data)),
            sep,
            unit,
            duration_secs(secs, nanos),
        )
    }

    /// Whether the count of samples has room for what the parser found.
    pub open spec fn has_room_for(self, found: ParseResultView) -> bool {
        self.samples_received + found.n_new_samples <= u64::MAX
    }

    /// The session after a read brought `serial_data` at the time `secs`
    /// seconds and `nanos` nanoseconds. Where the count of samples has room,
    /// the data is taken in. Where it has none, nothing is taken in and the
    /// pending bytes are dropped.
    pub open spec fn after_read(
        self,
        serial_data: Seq<u8>,
        unit: TimeUnit,
        sep: char,
        secs: u64,
        nanos: u32,
    ) -> SessionView {
        if self.has_room_for(self.found(serial_data, unit, sep, secs, nanos)) {
            self.ingested(serial_data, unit, sep, secs, nanos)
        } else {
            SessionView { pending: Seq::empty(), ..self }
        }
    }

    /// The session after `serial_data` arrived at the time `secs` seconds and
    /// `nanos` nanoseconds: the full lines are read and merged, and the bytes
    /// of no full line stay pending.
    pub open spec fn ingested(
        self,
        serial_data: Seq<u8>,
        unit: TimeUnit,
        sep: char,
        secs: u64,
        nanos: u32,
    ) -> SessionView {
        let all = self.pending + serial_data;
        SessionView {
            pending: left_over(all),
            ..self.merged(self.found(serial_data, unit, sep, secs, nanos))
        }
    }
}

/// The texts of `lines` one behind the other.
pub open spec fn joined(lines: Seq<Seq<char>>) -> Seq<char>
    decreases lines.len(),
{
    if lines.len() == 0 {
        Seq::empty()
    } else {
        joined(lines.drop_last()) + lines.last()
    }
}

/// A session without samples and with the given sizes and pending bytes.
pub open spec fn empty_session(samples_size: nat, monitor_size: nat, pending: Seq<u8>)
    -> SessionView {
    SessionView {
        series: Seq::empty(),
        appearances: Seq::empty(),
        monitor: Seq::empty(),
        samples_received: 0,
        pending,
        samples_size,
        monitor_size,
    }
}

/// However often a session is cleared, it then has no history, no appearance
/// and no monitor line, and its count is zero. To clear it again changes
/// nothing.
pub proof fn lemma_clear_empties(session: SessionView)
    ensures
        session.cleared().series.len() == 0,
        session.cleared().appearances.len() == 0,
        session.cleared().monitor.len() == 0,
        session.cleared().samples_received == 0,
        session.cleared().cleared() == session.cleared(),
        session.cleared() == empty_session(
            session.samples_size,
            session.monitor_size,
            session.pending,
        ),
{
}

/// New samples bring a new history exactly where one of their positions has
/// a sample and no appearance yet.
pub proof fn lemma_brings_new_iff(
    appearances: Seq<Option<AppearanceView>>,
    new: Seq<Seq<SampleView>>,
)
    ensures
        brings_new_history(appearances, new) <==> exists|i: int|
            0 <= i < new.len() && (#[trigger] new[i]).len() > 0 && slot_at(appearances, i).is_none(),
    decreases new.len(),
{
    if new.len() > 0 {
        let earlier = new.drop_last();
        lemma_brings_new_iff(appearances, earlier);
        if brings_new_history(appearances, earlier) {
            let i = choose|i: int|
                0 <= i < earlier.len() && (#[trigger] earlier[i]).len() > 0 && slot_at(
                    appearances,
                    i,
                ).is_none();
            assert(new[i] == earlier[i]);
        }
        if new.last().len() > 0 && slot_at(appearances, new.len() - 1).is_none() {
            assert(new[new.len() - 1].len() > 0);
        }
        if exists|i: int|
            0 <= i < new.len() && (#[trigger] new[i]).len() > 0 && slot_at(appearances, i).is_none() {
            let i = choose|i: int|
                0 <= i < new.len() && (#[trigger] new[i]).len() > 0 && slot_at(
                    appearances,
                    i,
                ).is_none();
            if i < earlier.len() {
                assert(earlier[i] == new[i]);
            }
        }
    }
}

/// What is taken in after a clear seeds the histories from scratch, as in a
/// new session. Every position that brought samples has a history, holding
/// the newest of them, and a visible appearance named after its first
/// sample; the positions that brought none have neither. The colours are
/// spread evenly over the appearances that there are.
pub proof fn lemma_merge_after_clear(session: SessionView, found: ParseResultView)
    ensures
        session.cleared().merged(found) == empty_session(
            session.samples_size,
            session.monitor_size,
            session.pending,
        ).merged(found),
        session.cleared().merged(found).series.len() == found.samples_vec.len(),
        session.cleared().merged(found).appearances.len() == found.samples_vec.len(),
        session.cleared().merged(found).samples_received == found.n_new_samples,
        forall|i: int|
            0 <= i < found.samples_vec.len() ==> #[trigger] session.cleared().merged(
                found,
            ).series[i] == if found.samples_vec[i].len() > 0 {
                Some(
                    after_add_all(
                        Seq::<SampleView>::empty(),
                        session.samples_size,
                        found.samples_vec[i],
                    ),
                )
            } else {
                None
            },
        forall|i: int|
            0 <= i < found.samples_vec.len() ==> #[trigger] session.cleared().merged(
                found,
            ).appearances[i] == if found.samples_vec[i].len() > 0 {
                Some(
                    AppearanceView {
                        name: seed_name(found.samples_vec[i], i as nat),
                        visible: true,
                        color: SeriesColor::Spread {
                            index: count_some(
                                seeded_appearances(Seq::empty(), found.samples_vec).take(i),
                            ) as usize,
                            count: count_some(
                                seeded_appearances(Seq::empty(), found.samples_vec),
                            ) as usize,
                        },
                    },
                )
            } else {
                None
            },
{
    let new = found.samples_vec;
    let none = Seq::<Option<AppearanceView>>::empty();
    lemma_brings_new_iff(none, new);
    let seeded = seeded_appearances(none, new);
    let merged = merged_appearances(none, new);
    assert forall|i: int| 0 <= i < new.len() implies #[trigger] merged[i] == if new[i].len() > 0 {
        Some(
            AppearanceView {
                name: seed_name(new[i], i as nat),
                visible: true,
                color: SeriesColor::Spread {
                    index: count_some(seeded.take(i)) as usize,
                    count: count_some(seeded) as usize,
                },
            },
        )
    } else {
        None
    } by {
        if new[i].len() > 0 {
            assert(brings_new_history(none, new));
        } else {
            assert(seeded[i].is_none());
        }
    }
}

/// A session that has an appearance exactly where it has a history still
/// has after it took in what the parser found. No history is lost, and the
/// count of samples does not fall.
pub proof fn lemma_merged_stays_aligned(session: SessionView, found: ParseResultView)
    requires
        aligned_slots(session.series, session.appearances),
    ensures
        aligned_slots(session.merged(found).series, session.merged(found).appearances),
        session.merged(found).series.len() >= session.series.len(),
        forall|i: int|
            0 <= i < session.series.len() && (#[trigger] session.series[i]).is_some()
                ==> session.merged(found).series[i].is_some(),
        session.merged(found).samples_received >= session.samples_received,
{
    let merged = session.merged(found);
    assert forall|i: int| 0 <= i < merged.series.len() implies ((#[trigger] merged.series[i]).is_some()
        <==> merged.appearances[i].is_some()) by {
        if i < session.series.len() {
            assert(session.series[i].is_some() <==> session.appearances[i].is_some());
        }
    }
}

/// Every history holds its samples in the order in which they arrived: after
/// new samples were taken in, a history holds what it held, then the new
/// samples of its position, cut down to the newest that its size allows.
pub proof fn lemma_merged_series_in_order(
    series: Seq<Option<Seq<SampleView>>>,
    size: nat,
    new: Seq<Seq<SampleView>>,
)
    requires
        size > 0,
        forall|i: int|
            0 <= i < series.len() && (#[trigger] series[i]).is_some() ==> series[i].unwrap().len()
                <= size,
    ensures
        forall|i: int|
            0 <= i < merged_series(series, size, new).len() && history_at(new, i).len() > 0
                ==> #[trigger] merged_series(series, size, new)[i] == Some(
                newest(
                    (match slot_at(series, i) {
                        Some(history) => history,
                        None => Seq::empty(),
                    }) + history_at(new, i),
                    size,
                ),
            ),
        forall|i: int|
            0 <= i < merged_series(series, size, new).len() && history_at(new, i).len() == 0
                ==> #[trigger] merged_series(series, size, new)[i] == slot_at(series, i),
{
    let merged = merged_series(series, size, new);
    assert forall|i: int| 0 <= i < merged.len() && history_at(new, i).len() > 0 implies
        #[trigger] merged[i] == Some(
        newest(
            (match slot_at(series, i) {
                Some(history) => history,
                None => Seq::empty(),
            }) + history_at(new, i),
            size,
        ),
    ) by {
        let held = match slot_at(series, i) {
            Some(history) => history,
            None => Seq::empty(),
        };
        if slot_at(series, i).is_some() {
            assert(series[i].is_some());
        }
        lemma_add_all_keeps_newest(held, size, history_at(new, i));
    }
}

/// The new samples of two parts, position by position: those of the first
/// part and then those of the second.
pub open spec fn joined_new(first: Seq<Seq<SampleView>>, second: Seq<Seq<SampleView>>) -> Seq<
    Seq<SampleView>,
> {
    Seq::new(
        longer(first.len(), second.len()),
        |i: int| history_at(first, i) + history_at(second, i),
    )
}

/// `count` positions that hold nothing.
pub open spec fn no_appearances(count: nat) -> Seq<Option<AppearanceView>> {
    Seq::new(count, |i: int| None)
}

/// Whether `x` and `y` are the same but for the colours.
pub open spec fn same_but_colour(
    x: Seq<Option<AppearanceView>>,
    y: Seq<Option<AppearanceView>>,
) -> bool {
    &&& x.len() == y.len()
    &&& forall|i: int|
        0 <= i < x.len() ==> match (#[trigger] x[i], y[i]) {
            (Some(a), Some(b)) => a.name == b.name && a.visible == b.visible,
            (None, None) => true,
            _ => false,
        }
}

/// New samples that join a history in two goes leave it as when they join
/// in one.
pub proof fn lemma_merged_history_in_parts(
    held: Option<Seq<SampleView>>,
    size: nat,
    first: Seq<SampleView>,
    second: Seq<SampleView>,
)
    ensures
        merged_history(merged_history(held, size, first), size, second) == merged_history(
            held,
            size,
            first + second,
        ),
{
    if first.len() == 0 {
        assert(first + second =~= second);
    } else if second.len() == 0 {
        assert(first + second =~= first);
    } else {
        crate::fixedsizebuffer::lemma_add_all_in_parts(
            match held {
                Some(history) => history,
                None => Seq::empty(),
            },
            size,
            first,
            second,
        );
    }
}

/// New samples that join the histories in two goes leave them as when they
/// join in one.
pub proof fn lemma_merged_series_in_parts(
    series: Seq<Option<Seq<SampleView>>>,
    size: nat,
    first: Seq<Seq<SampleView>>,
    second: Seq<Seq<SampleView>>,
)
    ensures
        merged_series(merged_series(series, size, first), size, second) == merged_series(
            series,
            size,
            joined_new(first, second),
        ),
{
    let once = merged_series(series, size, first);
    let twice = merged_series(once, size, second);
    let whole = merged_series(series, size, joined_new(first, second));
    assert(twice.len() == whole.len());
    assert forall|i: int| 0 <= i < twice.len() implies twice[i] == whole[i] by {
        assert(slot_at(once, i) == merged_history(slot_at(series, i), size, history_at(first, i)));
        lemma_merged_history_in_parts(
            slot_at(series, i),
            size,
            history_at(first, i),
            history_at(second, i),
        );
        if i >= joined_new(first, second).len() {
            assert(history_at(first, i) + history_at(second, i) =~= Seq::<SampleView>::empty());
        }
    }
    assert(twice =~= whole);
}

/// Appearances seeded in two goes are as when seeded in one.
pub proof fn lemma_seeded_in_parts(
    appearances: Seq<Option<AppearanceView>>,
    first: Seq<Seq<SampleView>>,
    second: Seq<Seq<SampleView>>,
)
    ensures
        seeded_appearances(seeded_appearances(appearances, first), second) == seeded_appearances(
            appearances,
            joined_new(first, second),
        ),
{
    let once = seeded_appearances(appearances, first);
    let twice = seeded_appearances(once, second);
    let whole = seeded_appearances(appearances, joined_new(first, second));
    assert(twice.len() == whole.len());
    assert forall|i: int| 0 <= i < twice.len() implies twice[i] == whole[i] by {
        let a = history_at(first, i);
        let b = history_at(second, i);
        assert(slot_at(once, i) == seeded_appearance(slot_at(appearances, i), a, i as nat));
        if i >= joined_new(first, second).len() {
            assert(a + b =~= Seq::<SampleView>::empty());
        }
        if a.len() == 0 {
            assert(a + b =~= b);
        } else {
            assert((a + b)[0] == a[0]);
        }
    }
    assert(twice =~= whole);
}

/// How many positions hold something depends on which positions do.
pub proof fn lemma_count_some_same(
    x: Seq<Option<AppearanceView>>,
    y: Seq<Option<AppearanceView>>,
)
    requires
        x.len() == y.len(),
        forall|i: int| 0 <= i < x.len() ==> ((#[trigger] x[i]).is_some() <==> y[i].is_some()),
    ensures
        count_some(x) == count_some(y),
    decreases x.len(),
{
    if x.len() > 0 {
        assert forall|i: int| 0 <= i < x.drop_last().len() implies ((
        #[trigger] x.drop_last()[i]).is_some() <==> y.drop_last()[i].is_some()) by {
            assert(x[i].is_some() <==> y[i].is_some());
        }
        lemma_count_some_same(x.drop_last(), y.drop_last());
        assert(x[x.len() - 1].is_some() <==> y[x.len() - 1].is_some());
    }
}

/// Positions that hold nothing count for nothing.
pub proof fn lemma_count_some_padded(x: Seq<Option<AppearanceView>>, count: nat)
    ensures
        count_some(x + no_appearances(count)) == count_some(x),
    decreases count,
{
    if count == 0 {
        assert(x + no_appearances(count) =~= x);
    } else {
        lemma_count_some_padded(x, (count - 1) as nat);
        assert((x + no_appearances(count)).drop_last() =~= x + no_appearances((count - 1) as nat));
    }
}

/// The colours are spread by position alone: appearances that are the same
/// but for the colours are the same after the colours were spread.
pub proof fn lemma_recolored_same(x: Seq<Option<AppearanceView>>, y: Seq<Option<AppearanceView>>)
    requires
        same_but_colour(x, y),
    ensures
        recolored(x) == recolored(y),
        same_but_colour(recolored(x), x),
{
    assert forall|i: int| 0 <= i < x.len() implies ((#[trigger] x[i]).is_some() <==> y[i].is_some()) by {}
    lemma_count_some_same(x, y);
    assert forall|i: int| 0 <= i < x.len() implies recolored(x)[i] == recolored(y)[i] by {
        assert forall|j: int| 0 <= j < x.take(i).len() implies ((#[trigger] x.take(i)[j]).is_some()
            <==> y.take(i)[j].is_some()) by {
            assert(x[j].is_some() <==> y[j].is_some());
        }
        lemma_count_some_same(x.take(i), y.take(i));
    }
    assert(recolored(x) =~= recolored(y));
}

/// Seeding keeps appearances the same but for the colours.
pub proof fn lemma_seeded_same(
    x: Seq<Option<AppearanceView>>,
    y: Seq<Option<AppearanceView>>,
    new: Seq<Seq<SampleView>>,
)
    requires
        same_but_colour(x, y),
    ensures
        same_but_colour(seeded_appearances(x, new), seeded_appearances(y, new)),
        brings_new_history(x, new) == brings_new_history(y, new),
{
    lemma_brings_new_iff(x, new);
    lemma_brings_new_iff(y, new);
    assert forall|i: int| slot_at(x, i).is_none() <==> slot_at(y, i).is_none() by {
        if 0 <= i < x.len() {
            assert(x[i].is_some() <==> y[i].is_some());
        }
    }
    let sx = seeded_appearances(x, new);
    let sy = seeded_appearances(y, new);
    assert forall|i: int| 0 <= i < sx.len() implies match (#[trigger] sx[i], sy[i]) {
        (Some(a), Some(b)) => a.name == b.name && a.visible == b.visible,
        (None, None) => true,
        _ => false,
    } by {
        if i < x.len() {
            assert(match (x[i], y[i]) {
                (Some(a), Some(b)) => a.name == b.name && a.visible == b.visible,
                (None, None) => true,
                _ => false,
            });
        }
    }
}

/// Where new samples bring no new history, seeding changes no appearance: it
/// only makes room for the positions of the samples.
pub proof fn lemma_seeded_without_new(
    x: Seq<Option<AppearanceView>>,
    new: Seq<Seq<SampleView>>,
)
    requires
        !brings_new_history(x, new),
    ensures
        seeded_appearances(x, new) == x + no_appearances(
            (longer(x.len(), new.len()) - x.len()) as nat,
        ),
{
    lemma_brings_new_iff(x, new);
    let seeded = seeded_appearances(x, new);
    let padded = x + no_appearances((longer(x.len(), new.len()) - x.len()) as nat);
    assert(seeded.len() == padded.len());
    assert forall|i: int| 0 <= i < seeded.len() implies seeded[i] == padded[i] by {
        if i < new.len() && new[i].len() > 0 {
            assert(slot_at(x, i).is_some());
        }
    }
    assert(seeded =~= padded);
}

/// Room made for positions that hold nothing changes no colour.
pub proof fn lemma_recolored_padded(x: Seq<Option<AppearanceView>>, count: nat)
    ensures
        recolored(x + no_appearances(count)) == recolored(x) + no_appearances(count),
{
    let padded = x + no_appearances(count);
    lemma_count_some_padded(x, count);
    assert forall|i: int| 0 <= i < padded.len() implies recolored(padded)[i] == (recolored(x)
        + no_appearances(count))[i] by {
        if i < x.len() {
            assert(padded.take(i) =~= x.take(i));
        }
    }
    assert(recolored(padded) =~= recolored(x) + no_appearances(count));
}

/// New samples that are taken in in two goes leave the appearances as when
/// they are taken in in one.
pub proof fn lemma_merged_appearances_in_parts(
    appearances: Seq<Option<AppearanceView>>,
    first: Seq<Seq<SampleView>>,
    second: Seq<Seq<SampleView>>,
)
    ensures
        merged_appearances(merged_appearances(appearances, first), second) == merged_appearances(
            appearances,
            joined_new(first, second),
        ),
{
    let whole = joined_new(first, second);
    let seeded_once = seeded_appearances(appearances, first);
    let once = merged_appearances(appearances, first);
    lemma_seeded_in_parts(appearances, first, second);
    lemma_brings_new_iff(appearances, first);
    lemma_brings_new_iff(appearances, whole);
    lemma_brings_new_iff(seeded_once, second);
    // The whole brings a new history exactly where one of the parts does.
    assert(brings_new_history(appearances, whole) <==> (brings_new_history(appearances, first)
        || brings_new_history(seeded_once, second))) by {
        if brings_new_history(appearances, whole) {
            let i = choose|i: int|
                0 <= i < whole.len() && (#[trigger] whole[i]).len() > 0 && slot_at(
                    appearances,
                    i,
                ).is_none();
            if history_at(first, i).len() > 0 {
                assert(first[i].len() > 0);
            } else {
                assert(history_at(second, i).len() > 0);
                assert(second[i].len() > 0);
                assert(slot_at(seeded_once, i).is_none());
            }
        }
        if brings_new_history(appearances, first) {
            let i = choose|i: int|
                0 <= i < first.len() && (#[trigger] first[i]).len() > 0 && slot_at(
                    appearances,
                    i,
                ).is_none();
            assert(whole[i].len() > 0);
        }
        if brings_new_history(seeded_once, second) {
            let i = choose|i: int|
                0 <= i < second.len() && (#[trigger] second[i]).len() > 0 && slot_at(
                    seeded_once,
                    i,
                ).is_none();
            assert(slot_at(appearances, i).is_none());
            assert(whole[i].len() > 0);
        }
    }
    // What was taken in first is seeded, but for the colours.
    assert(same_but_colour(once, seeded_once)) by {
        if brings_new_history(appearances, first) {
            lemma_recolored_same(seeded_once, seeded_once);
        }
    }
    lemma_seeded_same(once, seeded_once, second);
    if brings_new_history(once, second) {
        lemma_recolored_same(
            seeded_appearances(once, second),
            seeded_appearances(seeded_once, second),
        );
    } else if brings_new_history(appearances, first) {
        lemma_seeded_without_new(once, second);
        lemma_seeded_without_new(seeded_once, second);
        lemma_recolored_padded(
            seeded_once,
            (longer(seeded_once.len(), second.len()) - seeded_once.len()) as nat,
        );
    } else {
    }
}

/// Data that arrives in two parts leaves the session as the same data in one
/// part, where every line of the first part decodes and both parts arrive
/// at the same time: the same lines in the monitor, the same samples in the
/// histories of their positions, the same appearances, the same count, and
/// the same bytes that wait for the rest of their line.
pub proof fn lemma_ingested_in_parts(
    session: SessionView,
    first: Seq<u8>,
    second: Seq<u8>,
    unit: TimeUnit,
    sep: char,
    secs: u64,
    nanos: u32,
)
    requires
        crate::lines::every_line_decodes(session.pending + first),
    ensures
        session.ingested(first, unit, sep, secs, nanos).ingested(second, unit, sep, secs, nanos)
            == session.ingested(first + second, unit, sep, secs, nanos),
{
    let start = duration_secs(secs, nanos);
    crate::parser::lemma_two_parts_as_one(session.pending, first, second, sep, unit, start);
    let one = session.found(first, unit, sep, secs, nanos);
    let after_one = session.ingested(first, unit, sep, secs, nanos);
    let two = after_one.found(second, unit, sep, secs, nanos);
    let whole = session.found(first + second, unit, sep, secs, nanos);
    let in_parts = after_one.ingested(second, unit, sep, secs, nanos);
    let in_one = session.ingested(first + second, unit, sep, secs, nanos);
    assert(whole.samples_vec =~= joined_new(one.samples_vec, two.samples_vec));
    lemma_merged_series_in_parts(
        session.series,
        session.samples_size,
        one.samples_vec,
        two.samples_vec,
    );
    lemma_merged_appearances_in_parts(session.appearances, one.samples_vec, two.samples_vec);
    crate::fixedsizebuffer::lemma_add_all_in_parts(
        session.monitor,
        session.monitor_size,
        one.full_lines,
        two.full_lines,
    );
    assert(session.pending + (first + second) =~= session.pending + first + second);
    assert(in_parts.series == in_one.series);
    assert(in_parts.appearances == in_one.appearances);
    assert(in_parts.monitor == in_one.monitor);
    assert(in_parts.pending == in_one.pending);
    assert(in_parts.samples_received == in_one.samples_received);
}

/// The count of samples has room for whatever arrives, as long as it has
/// room for one sample for every byte that waits or arrives.
pub proof fn lemma_room_for_every_byte(
    session: SessionView,
    serial_data: Seq<u8>,
    unit: TimeUnit,
    sep: char,
    secs: u64,
    nanos: u32,
)
    requires
        session.samples_received + session.pending.len() + serial_data.len() <= u64::MAX,
    ensures
        session.has_room_for(session.found(serial_data, unit, sep, secs, nanos)),
{
    crate::parser::lemma_samples_within_bytes(
        session.pending,
        serial_data,
        sep,
        unit,
        duration_secs(secs, nanos),
    );
}

/// What became of a read that was asked of the device.
#[derive(Debug)]
pub enum ReadEvent {
    /// The read has not finished.
    Pending,
    /// The read brought these bytes, maybe none.
    Data(Vec<u8>),
    /// The read failed.
    Failed,
}

/// What the session did with a read.
#[derive(Debug, Clone, Copy, PartialEq, Eq, Structural)]
pub enum ReadOutcome {
    /// The read has not finished. No new read is due.
    Waiting,
    /// The data was taken in. A new read is due.
    Merged,
    /// The data could not be taken in, and the parser was cleared. A new read
    /// is due.
    ParserCleared,
    /// The read failed, and nothing changed. A new read is due.
    ReadFailed,
}

impl ReadOutcome {
    /// Whether a new read is to be asked of the device.
    pub open spec fn spec_read_again(self) -> bool {
        self != ReadOutcome::Waiting
    }

    /// Whether a new read is to be asked of the device.
    #[verifier::when_used_as_spec(spec_read_again)]
    pub fn read_again(self) -> (again: bool)
        ensures
            again == self.spec_read_again(),
    {
        match self {
            ReadOutcome::Waiting => false,
            _ => true,
        }
    }
}

/// What a history stands for, where there is one.
pub open spec fn slot_history(slot: Option<FixedSizeBuffer<Sample>>) -> Option<Seq<SampleView>> {
    match slot {
        Some(buffer) => Some(history_view(buffer@)),
        None => None,
    }
}

/// What the histories of `series` stand for, position by position.
pub open spec fn buffers_view(series: Seq<Option<FixedSizeBuffer<Sample>>>) -> Seq<
    Option<Seq<SampleView>>,
> {
    Seq::new(series.len(), |i: int| slot_history(series[i]))
}

/// The state of one session.
#[derive(Debug)]
pub struct Session {
    samples_vec: Vec<Option<FixedSizeBuffer<Sample>>>,
    samples_received: u64,
    parser: Parser,
    serial_monitor_lines: FixedSizeBuffer<String>,
    samples_appearance: Vec<Option<SamplesAppearance>>,
    samples_buf_size: usize,
}

impl View for Session {
    type V = SessionView;

    closed spec fn view(&self) -> SessionView {
        SessionView {
            series: buffers_view(self.samples_vec@),
            appearances: appearance_views(self.samples_appearance@),
            monitor: texts(self.serial_monitor_lines@),
            samples_received: self.samples_received as nat,
            pending: self.parser@,
            samples_size: self.samples_buf_size as nat,
            monitor_size: self.serial_monitor_lines.spec_size() as nat,
        }
    }
}

impl Session {
    #[verifier::type_invariant]
    spec fn aligned(&self) -> bool {
        &&& self.samples_appearance@.len() == self.samples_vec@.len()
        &&& forall|i: int|
            0 <= i < self.samples_vec@.len() ==> ((#[trigger] self.samples_vec@[i]).is_some()
                <==> self.samples_appearance@[i].is_some())
        &&& forall|i: int|
            0 <= i < self.samples_vec@.len() && (#[trigger] self.samples_vec@[i]).is_some()
                ==> self.samples_vec@[i].unwrap().spec_size() == self.samples_buf_size
    }

    /// A session without samples, whose histories will hold at most
    /// `samples_buf_size` samples each and whose monitor holds at most
    /// `monitor_lines_buf_size` lines.
    pub fn new(samples_buf_size: usize, monitor_lines_buf_size: usize) -> (session: Self)
        ensures
            session@ == empty_session(
                samples_buf_size as nat,
                monitor_lines_buf_size as nat,
                Seq::empty(),
            ),
    {
        let session = Session {
            samples_vec: Vec::new(),
            samples_received: 0,
            parser: Parser::default(),
            serial_monitor_lines: FixedSizeBuffer::new(monitor_lines_buf_size),
            samples_appearance: Vec::new(),
            samples_buf_size,
        };
        assert(session@.series =~= Seq::empty());
        assert(session@.appearances =~= Seq::empty());
        assert(session@.monitor =~= Seq::empty());
        session
    }

    /// Hands the session out and leaves an empty one of the same sizes in its
    /// place.
    fn take(&mut self) -> (taken: Session)
        ensures
            taken == *old(self),
    {
        let mut taken = Session::new(self.samples_buf_size, self.serial_monitor_lines.size());
        core::mem::swap(self, &mut taken);
        taken
    }

    /// Forgets all samples, appearances and monitor lines, and counts from
    /// zero again. The bytes that wait for the rest of their line stay.
    pub fn clear_samples(&mut self)
        ensures
            final(self)@ == old(self)@.cleared(),
    {
        let taken = self.take();
        proof {
            use_type_invariant(&taken);
        }
        let Session {
            samples_vec,
            samples_received,
            parser,
            serial_monitor_lines,
            samples_appearance,
            samples_buf_size,
        } = taken;
        let mut samples_vec = samples_vec;
        let mut samples_appearance = samples_appearance;
        let mut serial_monitor_lines = serial_monitor_lines;
        samples_vec.clear();
        samples_appearance.clear();
        serial_monitor_lines.clear();
        let cleared = Session {
            samples_vec,
            samples_received: 0,
            parser,
            serial_monitor_lines,
            samples_appearance,
            samples_buf_size,
        };
        assert(cleared@.series =~= Seq::empty());
        assert(cleared@.appearances =~= Seq::empty());
        assert(cleared@.monitor =~= Seq::empty());
        *self = cleared;
    }

    /// Forgets everything but the sizes: the samples, and the bytes that
    /// wait for the rest of their line too.
    pub fn reset_connection(&mut self)
        ensures
            final(self)@ == old(self)@.reset(),
    {
        self.clear_samples();
        let taken = self.take();
        proof {
            use_type_invariant(&taken);
        }
        let Session {
            samples_vec,
            samples_received,
            parser,
            serial_monitor_lines,
            samples_appearance,
            samples_buf_size,
        } = taken;
        let mut parser = parser;
        parser.clear();
        *self = Session {
            samples_vec,
            samples_received,
            parser,
            serial_monitor_lines,
            samples_appearance,
            samples_buf_size,
        };
    }

    /// Takes in what the parser found: the lines go to the monitor, the new
    /// samples join the histories of their positions, a position that
    /// brings its first sample gets a history and an appearance, and the
    /// count grows by the number of new samples. A position that brings no
    /// sample is left as it is.
    pub fn merge(&mut self, found: ParseResult)
        requires
            old(self)@.samples_received + found@.n_new_samples <= u64::MAX,
        ensures
            final(self)@ == old(self)@.merged(found@),
    {
        let taken = self.take();
        proof {
            use_type_invariant(&taken);
        }
        let Session {
            samples_vec,
            samples_received,
            parser,
            serial_monitor_lines,
            samples_appearance,
            samples_buf_size,
        } = taken;
        let mut samples_vec = samples_vec;
        let mut samples_appearance = samples_appearance;
        let mut serial_monitor_lines = serial_monitor_lines;
        let ghost size = samples_buf_size as nat;
        let ghost old_series = buffers_view(samples_vec@);
        let ghost old_appearances = appearance_views(samples_appearance@);
        let (full_lines, new_series, n_new_samples) = found.into_parts();
        let ghost new = series_view(new_series@);

        proof {
            lemma_texts_add_all(
                serial_monitor_lines@,
                serial_monitor_lines.spec_size() as nat,
                full_lines@,
            );
            assert forall|j: int| 0 <= j < old_series.len() implies ((#[trigger] old_series[j]).is_some()
                <==> old_appearances[j].is_some()) by {
                assert(samples_vec@[j].is_some() <==> samples_appearance@[j].is_some());
            }
        }
        serial_monitor_lines.extend(full_lines);

        proof {
            assert(new.take(0) =~= Seq::<Seq<SampleView>>::empty());
            assert(buffers_view(samples_vec@) =~= merged_series(old_series, size, new.take(0)));
            assert(appearance_views(samples_appearance@) =~= seeded_appearances(
                old_appearances,
                new.take(0),
            ));
        }
        let positions: usize = new_series.len();
        let mut position: usize = 0;
        let mut created = false;
        for new_samples in it: new_series
            invariant
                it.seq() == new_series@,
                position == it.index(),
                positions == new_series@.len(),
                new == series_view(new_series@),
                size == samples_buf_size,
                aligned_slots(old_series, old_appearances),
                samples_vec@.len() == samples_appearance@.len(),
                forall|j: int|
                    0 <= j < samples_vec@.len() ==> ((#[trigger] samples_vec@[j]).is_some()
                        <==> samples_appearance@[j].is_some()),
                forall|j: int|
                    0 <= j < samples_vec@.len() && (#[trigger] samples_vec@[j]).is_some()
                        ==> samples_vec@[j].unwrap().spec_size() == samples_buf_size,
                buffers_view(samples_vec@) == merged_series(
                    old_series,
                    size,
                    new.take(it.index() as int),
                ),
                appearance_views(samples_appearance@) == seeded_appearances(
                    old_appearances,
                    new.take(it.index() as int),
                ),
                created == brings_new_history(old_appearances, new.take(it.index() as int)),
        {
            let ghost at = it.index() as int;
            assert(at < new_series@.len());
            let ghost joining = history_view(new_samples@);
            let ghost so_far = new.take(at);
            let ghost now = new.take(at + 1);
            proof {
                assert(now.drop_last() =~= so_far);
                assert(now.last() == joining);
                assert(buffers_view(samples_vec@).len() == samples_vec@.len());
                assert(appearance_views(samples_appearance@).len() == samples_appearance@.len());
                assert forall|j: int| j != at implies history_at(now, j) == history_at(
                    so_far,
                    j,
                ) by {}
                assert(history_at(so_far, at) == Seq::<SampleView>::empty());
                assert(history_at(now, at) == joining);
            }
            if position >= samples_vec.len() {
                samples_vec.push(None);
                samples_appearance.push(None);
            }
            let ghost reaching = samples_vec@;
            let ghost reaching_appearances = samples_appearance@;
            proof {
                assert(reaching.len() == longer(old_series.len(), (at + 1) as nat));
                assert forall|j: int| 0 <= j < reaching.len() implies slot_history(
                    #[trigger] reaching[j],
                ) == merged_history(slot_at(old_series, j), size, history_at(so_far, j)) by {
                    if j < merged_series(old_series, size, so_far).len() {
                        assert(merged_series(old_series, size, so_far)[j] == merged_history(
                            slot_at(old_series, j),
                            size,
                            history_at(so_far, j),
                        ));
                    }
                }
                assert forall|j: int| 0 <= j < reaching.len() implies slot_appearance(
                    #[trigger] reaching_appearances[j],
                ) == seeded_appearance(
                    slot_at(old_appearances, j),
                    history_at(so_far, j),
                    j as nat,
                ) by {
                    if j < seeded_appearances(old_appearances, so_far).len() {
                        assert(seeded_appearances(old_appearances, so_far)[j] == seeded_appearance(
                            slot_at(old_appearances, j),
                            history_at(so_far, j),
                            j as nat,
                        ));
                    }
                }
                if at < old_series.len() {
                    assert(old_series[at].is_some() <==> old_appearances[at].is_some());
                }
            }
            if new_samples.len() > 0 {
                let slot = samples_vec[position].take();
                match slot {
                    Some(buffer) => {
                        let mut buffer = buffer;
                        proof {
                            lemma_history_view_add_all(buffer@, size, new_samples@);
                        }
                        buffer.extend(new_samples);
                        samples_vec[position] = Some(buffer);
                    },
                    None => {
                        // Give it the name of the first sample if provided.
                        let name = match new_samples[0].name() {
                            Some(n) => n.clone(),
                            None => placeholder(position),
                        };
                        proof {
                            assert(joining[0] == new_samples@[0]@);
                            assert(name@ == seed_name(joining, at as nat));
                            lemma_history_view_add_all(Seq::<Sample>::empty(), size, new_samples@);
                            assert(history_view(Seq::<Sample>::empty()) =~= Seq::<
                                SampleView,
                            >::empty());
                        }
                        let mut new_buf: FixedSizeBuffer<Sample> = FixedSizeBuffer::new(
                            samples_buf_size,
                        );
                        new_buf.extend(new_samples);
                        samples_vec[position] = Some(new_buf);
                        samples_appearance[position] = Some(SamplesAppearance::new(name));
                        created = true;
                    },
                }
            }
            proof {
                assert forall|j: int| 0 <= j < samples_vec@.len() && j != at implies samples_vec@[j]
                    == reaching[j] && samples_appearance@[j] == reaching_appearances[j] by {}
                assert(buffers_view(samples_vec@) =~= merged_series(old_series, size, now));
                assert(appearance_views(samples_appearance@) =~= seeded_appearances(
                    old_appearances,
                    now,
                ));
            }
            position += 1;
        }
        proof {
            assert(new.take(new.len() as int) =~= new);
        }
        if created {
            recolor_samples_appearances(&mut samples_appearance);
            proof {
                assert(appearance_views(samples_appearance@).len() == samples_appearance@.len());
                assert forall|j: int| 0 <= j < samples_vec@.len() implies ((
                #[trigger] samples_vec@[j]).is_some() <==> samples_appearance@[j].is_some()) by {
                    let seeded = seeded_appearances(old_appearances, new);
                    assert(appearance_views(samples_appearance@)[j] == recolored(seeded)[j]);
                    assert(buffers_view(samples_vec@)[j] == merged_series(old_series, size, new)[j]);
                    if j < old_series.len() {
                        assert(old_series[j].is_some() <==> old_appearances[j].is_some());
                    }
                }
            }
        }
        *self = Session {
            samples_vec,
            samples_received: samples_received + n_new_samples,
            parser,
            serial_monitor_lines,
            samples_appearance,
            samples_buf_size,
        };
    }

    /// Takes in the bytes `serial_data` that a device sent, `elapsed_secs`
    /// seconds and `elapsed_nanos` nanoseconds after the session began: the
    /// bytes join the pending ones, the full lines among them are read, and
    /// what was found is merged.
    pub fn ingest(
        &mut self,
        serial_data: &[u8],
        time_unit: TimeUnit,
        value_separator: char,
        elapsed_secs: u64,
        elapsed_nanos: u32,
    )
        requires
            elapsed_nanos < 1_000_000_000,
            old(self)@.has_room_for(
                old(self)@.found(
                    serial_data@,
                    time_unit,
                    value_separator,
                    elapsed_secs,
                    elapsed_nanos,
                ),
            ),
        ensures
            final(self)@ == old(self)@.ingested(
                serial_data@,
                time_unit,
                value_separator,
                elapsed_secs,
                elapsed_nanos,
            ),
    {
        let found = self.parse(
            serial_data,
            time_unit,
            value_separator,
            elapsed_secs,
            elapsed_nanos,
        );
        self.merge(found);
    }

    /// Lets the parser take `serial_data`. Only the pending bytes change.
    fn parse(
        &mut self,
        serial_data: &[u8],
        time_unit: TimeUnit,
        value_separator: char,
        elapsed_secs: u64,
        elapsed_nanos: u32,
    ) -> (found: ParseResult)
        requires
            elapsed_nanos < 1_000_000_000,
        ensures
            found@ == old(self)@.found(
                serial_data@,
                time_unit,
                value_separator,
                elapsed_secs,
                elapsed_nanos,
            ),
            final(self)@ == (SessionView {
                pending: left_over(old(self)@.pending + serial_data@),
                ..old(self)@
            }),
    {
        let taken = self.take();
        proof {
            use_type_invariant(&taken);
        }
        let Session {
            samples_vec,
            samples_received,
            parser,
            serial_monitor_lines,
            samples_appearance,
            samples_buf_size,
        } = taken;
        let mut parser = parser;
        let found = parser.parse_at(
            serial_data,
            time_unit,
            value_separator,
            elapsed_secs,
            elapsed_nanos,
        );
        *self = Session {
            samples_vec,
            samples_received,
            parser,
            serial_monitor_lines,
            samples_appearance,
            samples_buf_size,
        };
        found
    }

    /// Drops the pending bytes. Nothing else changes.
    fn clear_parser(&mut self)
        ensures
            final(self)@ == (SessionView { pending: Seq::empty(), ..old(self)@ }),
    {
        let taken = self.take();
        proof {
            use_type_invariant(&taken);
        }
        let Session {
            samples_vec,
            samples_received,
            parser,
            serial_monitor_lines,
            samples_appearance,
            samples_buf_size,
        } = taken;
        let mut parser = parser;
        parser.clear();
        *self = Session {
            samples_vec,
            samples_received,
            parser,
            serial_monitor_lines,
            samples_appearance,
            samples_buf_size,
        };
    }

    /// Handles what became of the read that was asked of the device, where a
    /// read that finished did so `elapsed_secs` seconds and `elapsed_nanos`
    /// nanoseconds after the session began.
    ///
    /// A read that has not finished changes nothing, and neither does one
    /// that failed. Data is taken in where the count of samples has room for
    /// it; where it has none, the data is lost and the parser is cleared.
    pub fn poll_read_at(
        &mut self,
        event: ReadEvent,
        time_unit: TimeUnit,
        value_separator: char,
        elapsed_secs: u64,
        elapsed_nanos: u32,
    ) -> (outcome: ReadOutcome)
        requires
            elapsed_nanos < 1_000_000_000,
        ensures
            match event {
                ReadEvent::Pending => outcome == ReadOutcome::Waiting && final(self)@ == old(
                    self,
                )@,
                ReadEvent::Failed => outcome == ReadOutcome::ReadFailed && final(self)@ == old(
                    self,
                )@,
                ReadEvent::Data(serial_data) => {
                    &&& final(self)@ == old(self)@.after_read(
                        serial_data@,
                        time_unit,
                        value_separator,
                        elapsed_secs,
                        elapsed_nanos,
                    )
                    &&& outcome == if old(self)@.has_room_for(
                        old(self)@.found(
                            serial_data@,
                            time_unit,
                            value_separator,
                            elapsed_secs,
                            elapsed_nanos,
                        ),
                    ) {
                        ReadOutcome::Merged
                    } else {
                        ReadOutcome::ParserCleared
                    }
                },
            },
    {
        match event {
            ReadEvent::Pending => ReadOutcome::Waiting,
            ReadEvent::Failed => ReadOutcome::ReadFailed,
            ReadEvent::Data(serial_data) => {
                let found = self.parse(
                    serial_data.as_slice(),
                    time_unit,
                    value_separator,
                    elapsed_secs,
                    elapsed_nanos,
                );
                if found.n_new_samples() <= u64::MAX - self.samples_received() {
                    self.merge(found);
                    ReadOutcome::Merged
                } else {
                    self.clear_parser();
                    ReadOutcome::ParserCleared
                }
            },
        }
    }

    /// Handles what became of the read that was asked of the device, in a
    /// session that began at `start_time`. The clock says how long ago that
    /// was; all else is as in [`Session::poll_read_at`].
    pub fn poll_read(
        &mut self,
        event: ReadEvent,
        time_unit: TimeUnit,
        value_separator: char,
        start_time: Instant,
    ) -> (outcome: ReadOutcome)
        ensures
            match event {
                ReadEvent::Pending => outcome == ReadOutcome::Waiting && final(self)@ == old(
                    self,
                )@,
                ReadEvent::Failed => outcome == ReadOutcome::ReadFailed && final(self)@ == old(
                    self,
                )@,
                ReadEvent::Data(serial_data) => exists|secs: u64, nanos: u32|
                    {
                        &&& nanos < 1_000_000_000
                        &&& final(self)@ == #[trigger] old(self)@.after_read(
                            serial_data@,
                            time_unit,
                            value_separator,
                            secs,
                            nanos,
                        )
                        &&& outcome == if old(self)@.has_room_for(
                            old(self)@.found(
                                serial_data@,
                                time_unit,
                                value_separator,
                                secs,
                                nanos,
                            ),
                        ) {
                            ReadOutcome::Merged
                        } else {
                            ReadOutcome::ParserCleared
                        }
                    },
            },
    {
        let (secs, nanos) = elapsed_since(start_time);
        self.poll_read_at(event, time_unit, value_separator, secs, nanos)
    }

    /// The history of each position. A position that has not brought a
    /// sample yet has none.
    pub fn samples_vec(&self) -> (series: &Vec<Option<FixedSizeBuffer<Sample>>>)
        ensures
            buffers_view(series@) == self@.series,
            aligned_slots(self@.series, self@.appearances),
            forall|i: int|
                0 <= i < series@.len() && (#[trigger] series@[i]).is_some()
                    ==> series@[i].unwrap().spec_size() == self@.samples_size,
    {
        proof {
            use_type_invariant(self);
            assert forall|i: int| 0 <= i < self@.series.len() implies ((
            #[trigger] self@.series[i]).is_some() <==> self@.appearances[i].is_some()) by {
                assert(self.samples_vec@[i].is_some() <==> self.samples_appearance@[i].is_some());
            }
        }
        &self.samples_vec
    }

    /// How each history is shown. A position has an appearance exactly where
    /// it has a history.
    pub fn samples_appearance(&self) -> (appearances: &Vec<Option<SamplesAppearance>>)
        ensures
            appearance_views(appearances@) == self@.appearances,
            appearances@.len() == self@.series.len(),
    {
        proof {
            use_type_invariant(self);
        }
        &self.samples_appearance
    }

    /// How many positions have a history.
    pub fn series_count(&self) -> (count: usize)
        ensures
            count == count_some(self@.series),
            count == count_some(self@.appearances),
    {
        proof {
            use_type_invariant(self);
        }
        let n = self.samples_vec.len();
        let ghost series = self@.series;
        let ghost appearances = self@.appearances;
        let mut count: usize = 0;
        let mut i: usize = 0;
        proof {
            assert(series.take(0) =~= Seq::<Option<Seq<SampleView>>>::empty());
            assert(appearances.take(0) =~= Seq::<Option<AppearanceView>>::empty());
        }
        while i < n
            invariant
                i <= n,
                n == self.samples_vec@.len(),
                n == self.samples_appearance@.len(),
                series == buffers_view(self.samples_vec@),
                appearances == appearance_views(self.samples_appearance@),
                forall|j: int|
                    0 <= j < n ==> ((#[trigger] self.samples_vec@[j]).is_some()
                        <==> self.samples_appearance@[j].is_some()),
                count == count_some(series.take(i as int)),
                count == count_some(appearances.take(i as int)),
                count <= i,
            decreases n - i,
        {
            proof {
                assert(series.take(i + 1).drop_last() =~= series.take(i as int));
                assert(appearances.take(i + 1).drop_last() =~= appearances.take(i as int));
                assert(self.samples_vec@[i as int].is_some()
                    <==> self.samples_appearance@[i as int].is_some());
            }
            if self.samples_vec[i].is_some() {
                count += 1;
            }
            i += 1;
        }
        proof {
            assert(series.take(n as int) =~= series);
            assert(appearances.take(n as int) =~= appearances);
        }
        count
    }

    /// The lines for the monitor.
    pub fn serial_monitor_lines(&self) -> (lines: &FixedSizeBuffer<String>)
        ensures
            texts(lines@) == self@.monitor,
            lines.spec_size() == self@.monitor_size,
    {
        &self.serial_monitor_lines
    }

    /// The lines of the monitor as one text, oldest line first.
    pub fn monitor_text(&self) -> (text: String)
        ensures
            text@ == joined(self@.monitor),
    {
        let mut text = String::new();
        let n = self.serial_monitor_lines.len();
        let ghost all = texts(self.serial_monitor_lines@);
        let mut i: usize = 0;
        assert(all.take(0) =~= Seq::<Seq<char>>::empty());
        while i < n
            invariant
                i <= n,
                n == self.serial_monitor_lines@.len(),
                all == texts(self.serial_monitor_lines@),
                text@ == joined(all.take(i as int)),
            decreases n - i,
        {
            proof {
                assert(all.take(i + 1).drop_last() =~= all.take(i as int));
            }
            match self.serial_monitor_lines.get(i) {
                Some(line) => {
                    text.append(line.as_str());
                },
                None => {},
            }
            i += 1;
        }
        assert(all.take(n as int) =~= all);
        text
    }

    /// How many samples were taken in since the last reset.
    pub fn samples_received(&self) -> (n: u64)
        ensures
            n == self@.samples_received,
    {
        self.samples_received
    }

    /// The parser, with the bytes that wait for the rest of their line.
    pub fn parser(&self) -> (parser: &Parser)
        ensures
            parser@ == self@.pending,
    {
        &self.parser
    }

    /// Puts `appearance` in the place of the one at `position`.
    fn replace_appearance(&mut self, position: usize, appearance: SamplesAppearance)
        requires
            slot_at(old(self)@.appearances, position as int).is_some(),
        ensures
            final(self)@ == (SessionView {
                appearances: old(self)@.appearances.update(position as int, Some(appearance@)),
                ..old(self)@
            }),
    {
        let taken = self.take();
        proof {
            use_type_invariant(&taken);
        }
        let Session {
            samples_vec,
            samples_received,
            parser,
            serial_monitor_lines,
            samples_appearance,
            samples_buf_size,
        } = taken;
        let mut samples_appearance = samples_appearance;
        let ghost before = appearance_views(samples_appearance@);
        assert(samples_appearance@[position as int].is_some()) by {
            assert(before[position as int].is_some());
        }
        samples_appearance[position] = Some(appearance);
        assert(appearance_views(samples_appearance@) =~= before.update(
            position as int,
            Some(appearance@),
        ));
        *self = Session {
            samples_vec,
            samples_received,
            parser,
            serial_monitor_lines,
            samples_appearance,
            samples_buf_size,
        };
    }

    /// A copy of the appearance at `position`, where there is one.
    fn copy_appearance(&self, position: usize) -> (copy: Option<SamplesAppearance>)
        ensures
            slot_appearance(copy) == slot_at(self@.appearances, position as int),
    {
        if position < self.samples_appearance.len() {
            match &self.samples_appearance[position] {
                Some(appearance) => Some(appearance.clone()),
                None => None,
            }
        } else {
            None
        }
    }

    /// Shows or hides the history at `position`. A position without a
    /// history changes nothing.
    pub fn set_visible(&mut self, position: usize, visible: bool)
        ensures
            final(self)@ == (SessionView {
                appearances: match slot_at(old(self)@.appearances, position as int) {
                    Some(appearance) => old(self)@.appearances.update(
                        position as int,
                        Some(AppearanceView { visible, ..appearance }),
                    ),
                    None => old(self)@.appearances,
                },
                ..old(self)@
            }),
    {
        match self.copy_appearance(position) {
            Some(appearance) => {
                let mut appearance = appearance;
                appearance.set_visible(visible);
                self.replace_appearance(position, appearance);
            },
            None => {},
        }
    }

    /// Renames the history at `position`. A position without a history
    /// changes nothing.
    pub fn set_name(&mut self, position: usize, name: String)
        ensures
            final(self)@ == (SessionView {
                appearances: match slot_at(old(self)@.appearances, position as int) {
                    Some(appearance) => old(self)@.appearances.update(
                        position as int,
                        Some(AppearanceView { name: name@, ..appearance }),
                    ),
                    None => old(self)@.appearances,
                },
                ..old(self)@
            }),
    {
        match self.copy_appearance(position) {
            Some(appearance) => {
                let mut appearance = appearance;
                appearance.set_name(name);
                self.replace_appearance(position, appearance);
            },
            None => {},
        }
    }

    /// Gives the history at `position` the colour `color`. A position
    /// without a history changes nothing.
    pub fn set_color(&mut self, position: usize, color: SeriesColor)
        ensures
            final(self)@ == (SessionView {
                appearances: match slot_at(old(self)@.appearances, position as int) {
                    Some(appearance) => old(self)@.appearances.update(
                        position as int,
                        Some(AppearanceView { color, ..appearance }),
                    ),
                    None => old(self)@.appearances,
                },
                ..old(self)@
            }),
    {
        match self.copy_appearance(position) {
            Some(appearance) => {
                let mut appearance = appearance;
                appearance.set_color(color);
                self.replace_appearance(position, appearance);
            },
            None => {},
        }
    }
}

/// Adding strings to a buffer adds their texts to the texts it holds.
pub proof fn lemma_texts_add_all(contents: Seq<String>, size: nat, items: Seq<String>)
    ensures
        texts(after_add_all(contents, size, items)) == after_add_all(
            texts(contents),
            size,
            texts(items),
        ),
    decreases items.len(),
{
    if items.len() == 0 {
        assert(texts(items) =~= Seq::<Seq<char>>::empty());
    } else {
        lemma_texts_add_all(contents, size, items.drop_last());
        let before = after_add_all(contents, size, items.drop_last());
        assert(texts(items).drop_last() =~= texts(items.drop_last()));
        assert(texts(items).last() == items.last()@);
        assert(texts(crate::fixedsizebuffer::after_add(before, size, items.last()))
            =~= crate::fixedsizebuffer::after_add(texts(before), size, items.last()@));
    }
}

/// Adding samples to a buffer adds what they stand for to what it stands for.
pub proof fn lemma_history_view_add_all(contents: Seq<Sample>, size: nat, items: Seq<Sample>)
    ensures
        history_view(after_add_all(contents, size, items)) == after_add_all(
            history_view(contents),
            size,
            history_view(items),
        ),
    decreases items.len(),
{
    if items.len() == 0 {
        assert(history_view(items) =~= Seq::<SampleView>::empty());
    } else {
        lemma_history_view_add_all(contents, size, items.drop_last());
        let before = after_add_all(contents, size, items.drop_last());
        assert(history_view(items).drop_last() =~= history_view(items.drop_last()));
        assert(history_view(items).last() == items.last()@);
        assert(history_view(crate::fixedsizebuffer::after_add(before, size, items.last()))
            =~= crate::fixedsizebuffer::after_add(history_view(before), size, items.last()@));
    }
}

} // verus!
