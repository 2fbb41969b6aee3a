//! The pages of the plotter.

use vstd::prelude::*;

verus! {

/// What the plotter shows.
#[derive(Debug, Clone, Copy, PartialEq, Eq, PartialOrd, Ord, Structural)]
pub enum PlotPage {
    /// The values over time.
    TimeValue,
    /// One history against another.
    XY,
    /// The lines as they were received.
    SerialMonitor,
}

impl Default for PlotPage {
    fn default() -> (value: Self)
        ensures
            value == PlotPage::TimeValue,
    {
        PlotPage::TimeValue
    }
}

impl PlotPage {
    /// The name of the value as text.
    pub open spec fn name(self) -> Seq<char> {
        match self {
            PlotPage::TimeValue => "Time - Value"@,
            PlotPage::XY => "X - Y"@,
            PlotPage::SerialMonitor => "Serial Monitor"@,
        }
    }

    /// The name of the value as text.
    pub fn as_str(&self) -> (text: &'static str)
        ensures
            text@ == self.name(),
    {
        match self {
            PlotPage::TimeValue => "Time - Value",
            PlotPage::XY => "X - Y",
            PlotPage::SerialMonitor => "Serial Monitor",
        }
    }

    /// The name of the value as a string.
    pub fn to_string(&self) -> (text: String)
        ensures
            text@ == self.name(),
    {
        self.as_str().to_owned()
    }
}

} // verus!
