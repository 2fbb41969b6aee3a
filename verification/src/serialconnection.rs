//! The settings of a serial line.

use vstd::prelude::*;
use vstd::string::StringExecFns;

verus! {

/// Number of bits per character.
#[derive(Debug, Clone, Copy, PartialEq, Eq, PartialOrd, Ord, Structural)]
pub enum DataBits {
    Five,
    Six,
    Seven,
    Eight,
}

impl Default for DataBits {
    fn default() -> (value: Self)
        ensures
            value == DataBits::Eight,
    {
        DataBits::Eight
    }
}

impl DataBits {
    /// The name of the value as text.
    pub open spec fn name(self) -> Seq<char> {
        match self {
            DataBits::Five => "Five"@,
            DataBits::Six => "Six"@,
            DataBits::Seven => "Seven"@,
            DataBits::Eight => "Eight"@,
        }
    }

    /// The name of the value as text.
    pub fn as_str(&self) -> (text: &'static str)
        ensures
            text@ == self.name(),
    {
        match self {
            DataBits::Five => "Five",
            DataBits::Six => "Six",
            DataBits::Seven => "Seven",
            DataBits::Eight => "Eight",
        }
    }

    /// The name of the value as a string.
    pub fn to_string(&self) -> (text: String)
        ensures
            text@ == self.name(),
    {
        self.as_str().to_owned()
    }
}

/// Flow control modes.
#[derive(Debug, Clone, Copy, PartialEq, Eq, PartialOrd, Ord, Structural)]
pub enum FlowControl {
    /// No flow control.
    NoFlowControl,
    /// Flow control using XON/XOFF bytes.
    Software,
    /// Flow control using RTS/CTS signals.
    Hardware,
}

impl Default for FlowControl {
    fn default() -> (value: Self)
        ensures
            value == FlowControl::NoFlowControl,
    {
        FlowControl::NoFlowControl
    }
}

impl FlowControl {
    /// The name of the value as text.
    pub open spec fn name(self) -> Seq<char> {
        match self {
            FlowControl::NoFlowControl => "None"@,
            FlowControl::Software => "Software"@,
            FlowControl::Hardware => "Hardware"@,
        }
    }

    /// The name of the value as text.
    pub fn as_str(&self) -> (text: &'static str)
        ensures
            text@ == self.name(),
    {
        match self {
            FlowControl::NoFlowControl => "None",
            FlowControl::Software => "Software",
            FlowControl::Hardware => "Hardware",
        }
    }

    /// The name of the value as a string.
    pub fn to_string(&self) -> (text: String)
        ensures
            text@ == self.name(),
    {
        self.as_str().to_owned()
    }
}

/// Parity checking modes.
#[derive(Debug, Clone, Copy, PartialEq, Eq, PartialOrd, Ord, Structural)]
pub enum Parity {
    NoParity,
    Odd,
    Even,
}

impl Default for Parity {
    fn default() -> (value: Self)
        ensures
            value == Parity::NoParity,
    {
        Parity::NoParity
    }
}

impl Parity {
    /// The name of the value as text.
    pub open spec fn name(self) -> Seq<char> {
        match self {
            Parity::NoParity => "None"@,
            Parity::Odd => "Odd"@,
            Parity::Even => "Even"@,
        }
    }

    /// The name of the value as text.
    pub fn as_str(&self) -> (text: &'static str)
        ensures
            text@ == self.name(),
    {
        match self {
            Parity::NoParity => "None",
            Parity::Odd => "Odd",
            Parity::Even => "Even",
        }
    }

    /// The name of the value as a string.
    pub fn to_string(&self) -> (text: String)
        ensures
            text@ == self.name(),
    {
        self.as_str().to_owned()
    }
}

/// Number of stop bits.
#[derive(Debug, Clone, Copy, PartialEq, Eq, PartialOrd, Ord, Structural)]
pub enum StopBits {
    One,
    Two,
}

impl Default for StopBits {
    fn default() -> (value: Self)
        ensures
            value == StopBits::One,
    {
        StopBits::One
    }
}

impl StopBits {
    /// The name of the value as text.
    pub open spec fn name(self) -> Seq<char> {
        match self {
            StopBits::One => "One"@,
            StopBits::Two => "Two"@,
        }
    }

    /// The name of the value as text.
    pub fn as_str(&self) -> (text: &'static str)
        ensures
            text@ == self.name(),
    {
        match self {
            StopBits::One => "One",
            StopBits::Two => "Two",
        }
    }

    /// The name of the value as a string.
    pub fn to_string(&self) -> (text: String)
        ensures
            text@ == self.name(),
    {
        self.as_str().to_owned()
    }
}

/// Why a serial line cannot be opened in a browser with the settings given.
#[derive(Debug, Clone, Copy, PartialEq, Eq, Structural)]
pub enum WebSerialError {
    /// A browser opens a line with seven or eight data bits only.
    DataBitsNotSupported(DataBits),
    /// A browser has no flow control by XON/XOFF bytes.
    SoftwareFlowControlNotSupported,
}

impl WebSerialError {
    /// The error in words.
    pub open spec fn message(self) -> Seq<char> {
        match self {
            WebSerialError::DataBitsNotSupported(data_bits) => "Data Bits: "@ + data_bits.name()
                + " not supported in Web Serial API"@,
            WebSerialError::SoftwareFlowControlNotSupported =>
                "FlowControl Software not supported in Web Serial API"@,
        }
    }

    /// The error in words.
    pub fn to_string(&self) -> (text: String)
        ensures
            text@ == self.message(),
    {
        match self {
            WebSerialError::DataBitsNotSupported(data_bits) => {
                let text = String::from_str("Data Bits: ");
                let text = text.concat(data_bits.as_str());
                text.concat(" not supported in Web Serial API")
            },
            WebSerialError::SoftwareFlowControlNotSupported => String::from_str(
                "FlowControl Software not supported in Web Serial API",
            ),
        }
    }
}

/// The settings of a serial line as a browser takes them.
#[derive(Debug, Clone, Copy, PartialEq, Eq, Structural)]
pub struct WebSerialOptions {
    pub baudrate: u32,
    /// Seven or eight.
    pub data_bits: u8,
    pub parity: Parity,
    /// Flow control by RTS/CTS signals, or none.
    pub hardware_flow_control: bool,
    /// One or two.
    pub stop_bits: u8,
}

/// The settings as a browser takes them, or why it does not take them. The
/// data bits are looked at before the flow control.
pub open spec fn web_serial_options(
    baudrate: u32,
    data_bits: DataBits,
    flow_control: FlowControl,
    parity: Parity,
    stop_bits: StopBits,
) -> Result<WebSerialOptions, WebSerialError> {
    if data_bits == DataBits::Five || data_bits == DataBits::Six {
        Err(WebSerialError::DataBitsNotSupported(data_bits))
    } else if flow_control == FlowControl::Software {
        Err(WebSerialError::SoftwareFlowControlNotSupported)
    } else {
        Ok(
            WebSerialOptions {
                baudrate,
                data_bits: if data_bits == DataBits::Seven {
                    7
                } else {
                    8
                },
                parity,
                hardware_flow_control: flow_control == FlowControl::Hardware,
                stop_bits: if stop_bits == StopBits::One {
                    1
                } else {
                    2
                },
            },
        )
    }
}

/// Turns the settings of a serial line into those that a browser takes.
pub fn create_web_serial_options(
    baudrate: u32,
    data_bits: DataBits,
    flow_control: FlowControl,
    parity: Parity,
    stop_bits: StopBits,
) -> (options: Result<WebSerialOptions, WebSerialError>)
    ensures
        options == web_serial_options(baudrate, data_bits, flow_control, parity, stop_bits),
{
    let o_data_bits: u8 = match data_bits {
        DataBits::Five | DataBits::Six => {
            return Err(WebSerialError::DataBitsNotSupported(data_bits));
        },
        DataBits::Seven => 7,
        DataBits::Eight => 8,
    };
    let hardware_flow_control = match flow_control {
        FlowControl::NoFlowControl => false,
        FlowControl::Software => {
            return Err(WebSerialError::SoftwareFlowControlNotSupported);
        },
        FlowControl::Hardware => true,
    };
    let o_stop_bits: u8 = match stop_bits {
        StopBits::One => 1,
        StopBits::Two => 2,
    };
    Ok(
        WebSerialOptions {
            baudrate,
            data_bits: o_data_bits,
            parity,
            hardware_flow_control,
            stop_bits: o_stop_bits,
        },
    )
}

} // verus!
