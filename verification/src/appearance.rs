//! How a history of samples is shown: its name, whether it is drawn, and its
//! colour.

use crate::decimal::decimal_digits;
use crate::decimal::digits_padded;
use crate::decimal::pad_left;
use crate::decimal::text_of_digits;
use vstd::prelude::*;

verus! {

/// The colour of a history of samples.
#[derive(Debug, Clone, Copy, PartialEq, Eq, Structural)]
pub enum SeriesColor {
    /// A colour by its red, green, blue and alpha parts.
    Rgba { r: u8, g: u8, b: u8, a: u8 },
    /// One of `count` colours that lie evenly spaced on the colour circle:
    /// the hue is `index / count` of a full turn.
    Spread { index: usize, count: usize },
}

/// The appearance of a history, as mathematics sees it.
pub struct AppearanceView {
    pub name: Seq<char>,
    pub visible: bool,
    pub color: SeriesColor,
}

/// The appearance of one history of samples.
#[derive(Debug)]
pub struct SamplesAppearance {
    name: String,
    visible: bool,
    color: SeriesColor,
}

impl View for SamplesAppearance {
    type V = AppearanceView;

    closed spec fn view(&self) -> AppearanceView {
        AppearanceView { name: self.name@, visible: self.visible, color: self.color }
    }
}

impl Clone for SamplesAppearance {
    fn clone(&self) -> (copy: Self)
        ensures
            copy@ == self@,
    {
        SamplesAppearance { name: self.name.clone(), visible: self.visible, color: self.color }
    }
}

/// Plain blue: the colour of a history before the colours are spread.
pub open spec fn blue() -> SeriesColor {
    SeriesColor::Rgba { r: 0, g: 0, b: 255, a: 255 }
}

/// The appearance of a new history named `name`: visible and blue.
pub open spec fn new_appearance(name: Seq<char>) -> AppearanceView {
    AppearanceView { name, visible: true, color: blue() }
}

/// How many of `slots` hold something.
pub open spec fn count_some<A>(slots: Seq<Option<A>>) -> nat
    decreases slots.len(),
{
    if slots.len() == 0 {
        0
    } else if slots.last().is_some() {
        count_some(slots.drop_last()) + 1
    } else {
        count_some(slots.drop_last())
    }
}

/// `appearances` with the colours spread evenly over those that there are:
/// the first gets the first of as many colours as there are appearances, the
/// second the second, and so on. Names and visibility stay, and so do the
/// positions without an appearance.
pub open spec fn recolored(appearances: Seq<Option<AppearanceView>>) -> Seq<
    Option<AppearanceView>,
> {
    Seq::new(
        appearances.len(),
        |i: int|
            match appearances[i] {
                Some(appearance) => Some(
                    AppearanceView {
                        color: SeriesColor::Spread {
                            index: count_some(appearances.take(i)) as usize,
                            count: count_some(appearances) as usize,
                        },
                        ..appearance
                    },
                ),
                None => None,
            },
    )
}

/// What an appearance stands for, where there is one.
pub open spec fn slot_appearance(slot: Option<SamplesAppearance>) -> Option<AppearanceView> {
    match slot {
        Some(appearance) => Some(appearance@),
        None => None,
    }
}

/// What the appearances of `appearances` stand for, position by position.
pub open spec fn appearance_views(appearances: Seq<Option<SamplesAppearance>>) -> Seq<
    Option<AppearanceView>,
> {
    Seq::new(appearances.len(), |i: int| slot_appearance(appearances[i]))
}

/// The text `Samples ` with a space at its end.
pub open spec fn placeholder_prefix() -> Seq<char> {
    seq!['S', 'a', 'm', 'p', 'l', 'e', 's', ' ']
}

/// The name of a history whose samples came without one: `Samples ` and the
/// position in decimal, with at least two digits.
pub open spec fn placeholder_name(position: nat) -> Seq<char> {
    placeholder_prefix() + text_of_digits(pad_left(decimal_digits(position), 2))
}

/// The colour of item `i` among `len` items whose colours are spread evenly.
pub fn unique_color_in_list(i: usize, len: usize) -> (color: SeriesColor)
    ensures
        color == (SeriesColor::Spread { index: i, count: len }),
{
    SeriesColor::Spread { index: i, count: len }
}

/// Spreads the colours evenly over the appearances that there are.
pub fn recolor_samples_appearances(appearances: &mut Vec<Option<SamplesAppearance>>)
    ensures
        appearance_views(final(appearances)@) == recolored(appearance_views(old(appearances)@)),
{
    let len = appearances.len();
    let ghost before = appearance_views(appearances@);
    let mut count: usize = 0;
    let mut i: usize = 0;
    assert(before.take(0) =~= Seq::<Option<AppearanceView>>::empty());
    while i < len
        invariant
            i <= len,
            len == appearances.len(),
            before == appearance_views(appearances@),
            count == count_some(before.take(i as int)),
            count <= i,
        decreases len - i,
    {
        assert(before.take(i + 1).drop_last() =~= before.take(i as int));
        if appearances[i].is_some() {
            count += 1;
        }
        i += 1;
    }
    assert(before.take(len as int) =~= before);
    let mut index: usize = 0;
    let mut i: usize = 0;
    assert(before.take(0) =~= Seq::<Option<AppearanceView>>::empty());
    while i < len
        invariant
            i <= len,
            len == appearances.len(),
            before.len() == len,
            count == count_some(before),
            index == count_some(before.take(i as int)),
            index <= i,
            forall|j: int|
                0 <= j < i ==> slot_appearance(#[trigger] appearances@[j]) == recolored(before)[j],
            forall|j: int| i <= j < len ==> slot_appearance(#[trigger] appearances@[j]) == before[j],
        decreases len - i,
    {
        let ghost prev = appearances@;
        assert(before.take(i + 1).drop_last() =~= before.take(i as int));
        assert(slot_appearance(prev[i as int]) == before[i as int]);
        let slot = appearances[i].take();
        match slot {
            Some(appearance) => {
                let mut appearance = appearance;
                appearance.set_color(unique_color_in_list(index, count));
                appearances[i] = Some(appearance);
                index += 1;
            },
            None => {},
        }
        proof {
            assert(slot_appearance(appearances@[i as int]) == recolored(before)[i as int]);
            assert forall|j: int| 0 <= j < len && j != i implies appearances@[j] == prev[j] by {}
        }
        i += 1;
    }
    assert(appearance_views(appearances@) =~= recolored(before));
}

/// The name of a history whose samples came without one.
pub fn placeholder(position: usize) -> (name: String)
    ensures
        name@ == placeholder_name(position as nat),
{
    let mut name = String::new();
    name.push('S');
    name.push('a');
    name.push('m');
    name.push('p');
    name.push('l');
    name.push('e');
    name.push('s');
    name.push(' ');
    assert(name@ =~= placeholder_prefix());
    let digits = digits_padded(position as u64, 2);
    let mut i: usize = 0;
    assert(name@ =~= placeholder_prefix() + text_of_digits(digits@.take(0)));
    while i < digits.len()
        invariant
            i <= digits.len(),
            crate::decimal::are_digits(digits@),
            name@ == placeholder_prefix() + text_of_digits(digits@.take(i as int)),
        decreases digits.len() - i,
    {
        name.push((digits[i] + 48) as char);
        assert(name@ =~= placeholder_prefix() + text_of_digits(digits@.take(i + 1)));
        i += 1;
    }
    assert(digits@.take(digits@.len() as int) =~= digits@);
    name
}

impl SamplesAppearance {
    /// The appearance of a new history: visible and blue.
    pub fn new(name: String) -> (appearance: Self)
        ensures
            appearance@ == new_appearance(name@),
    {
        Self { name, visible: true, color: SeriesColor::Rgba { r: 0, g: 0, b: 255, a: 255 } }
    }

    /// The name under which the history is listed.
    pub fn name(&self) -> (name: &String)
        ensures
            name@ == self@.name,
    {
        &self.name
    }

    /// Whether the history is drawn.
    pub fn visible(&self) -> (visible: bool)
        ensures
            visible == self@.visible,
    {
        self.visible
    }

    /// The colour in which the history is drawn.
    pub fn color(&self) -> (color: SeriesColor)
        ensures
            color == self@.color,
    {
        self.color
    }

    /// Renames the history. Nothing else changes.
    pub fn set_name(&mut self, name: String)
        ensures
            final(self)@ == (AppearanceView { name: name@, ..old(self)@ }),
    {
        self.name = name;
    }

    /// Shows or hides the history. Nothing else changes.
    pub fn set_visible(&mut self, visible: bool)
        ensures
            final(self)@ == (AppearanceView { visible, ..old(self)@ }),
    {
        self.visible = visible;
    }

    /// Gives the history another colour. Nothing else changes.
    pub fn set_color(&mut self, color: SeriesColor)
        ensures
            final(self)@ == (AppearanceView { color, ..old(self)@ }),
    {
        self.color = color;
    }
}

} // verus!
