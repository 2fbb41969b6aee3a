//! Samples and the units in which a device counts time.

use crate::decimal::Decimal;
use crate::decimal::DecimalView;
use vstd::prelude::*;

verus! {

/// The unit of the time values that a device sends.
#[derive(Debug, Clone, Copy, PartialEq, Eq, PartialOrd, Ord, Structural)]
pub enum TimeUnit {
    Us,
    Ms,
    S,
}

impl Default for TimeUnit {
    fn default() -> (unit: Self)
        ensures
            unit == TimeUnit::S,
    {
        TimeUnit::S
    }
}

impl TimeUnit {
    /// How many decimal places lie between this unit and the second.
    pub open spec fn places(self) -> nat {
        match self {
            TimeUnit::Us => 6,
            TimeUnit::Ms => 3,
            TimeUnit::S => 0,
        }
    }

    /// The name of the unit as text.
    pub open spec fn name(self) -> Seq<char> {
        match self {
            TimeUnit::Us => "us"@,
            TimeUnit::Ms => "ms"@,
            TimeUnit::S => "s"@,
        }
    }

    fn exec_places(self) -> (places: usize)
        ensures
            places == self.places(),
    {
        match self {
            TimeUnit::Us => 6,
            TimeUnit::Ms => 3,
            TimeUnit::S => 0,
        }
    }

    /// The name of the unit: `us`, `ms` or `s`.
    pub fn as_str(&self) -> (text: &'static str)
        ensures
            text@ == self.name(),
    {
        match self {
            TimeUnit::Us => "us",
            TimeUnit::Ms => "ms",
            TimeUnit::S => "s",
        }
    }

    /// The name of the unit as a string.
    pub fn to_string(&self) -> (text: String)
        ensures
            text@ == self.name(),
    {
        self.as_str().to_owned()
    }

    /// A time in seconds, expressed in this unit: seconds times 1,000,000 for
    /// microseconds, times 1,000 for milliseconds.
    pub fn convert_from_secs(self, secs: &Decimal) -> (val: Decimal)
        ensures
            val@ == secs@.shift_right(self.places()),
            val@.well_formed(),
    {
        secs.shift_right(self.exec_places())
    }

    /// A time in this unit, expressed in seconds: microseconds divided by
    /// 1,000,000, milliseconds by 1,000.
    pub fn convert_to_secs(self, val: &Decimal) -> (secs: Decimal)
        ensures
            secs@ == val@.shift_left(self.places()),
            secs@.well_formed(),
    {
        val.shift_left(self.exec_places())
    }
}

/// A sample as mathematics sees it.
pub struct SampleView {
    pub time: DecimalView,
    pub value: DecimalView,
    pub name: Option<Seq<char>>,
}

/// One value that a device sent, with the time in seconds at which it holds
/// and the name that the device gave it, if any.
#[derive(Debug)]
pub struct Sample {
    time: Decimal,
    value: Decimal,
    name: Option<String>,
}

/// The text of an optional string.
pub open spec fn name_view(name: Option<String>) -> Option<Seq<char>> {
    match name {
        Some(n) => Some(n@),
        None => None,
    }
}

impl View for Sample {
    type V = SampleView;

    closed spec fn view(&self) -> SampleView {
        SampleView { time: self.time@, value: self.value@, name: name_view(self.name) }
    }
}

impl Clone for Sample {
    fn clone(&self) -> (copy: Self)
        ensures
            copy@ == self@,
    {
        let name = match &self.name {
            Some(n) => Some(n.clone()),
            None => None,
        };
        Sample { time: self.time.clone(), value: self.value.clone(), name }
    }
}

impl Sample {
    /// The sample of the value `value` at the time `time`, in seconds.
    pub fn new(time: Decimal, value: Decimal, name: Option<String>) -> (sample: Sample)
        ensures
            sample@ == (SampleView { time: time@, value: value@, name: name_view(name) }),
    {
        Sample { time, value, name }
    }

    /// The time of the sample, in seconds.
    pub fn time(&self) -> (time: &Decimal)
        ensures
            time@ == self@.time,
    {
        &self.time
    }

    /// The value of the sample.
    pub fn value(&self) -> (value: &Decimal)
        ensures
            value@ == self@.value,
    {
        &self.value
    }

    /// The name that the device gave the value, if any.
    pub fn name(&self) -> (name: &Option<String>)
        ensures
            name_view(*name) == self@.name,
    {
        &self.name
    }
}

} // verus!
