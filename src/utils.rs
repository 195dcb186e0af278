use vstd::prelude::*;

verus! {

/// Absolute address of the function at `offset` from the module base, or
/// `None` where the sum does not fit in an address.
pub fn address(module: usize, offset: usize) -> (r: Option<usize>)
    ensures
        match r {
            Some(a) => a == module + offset,
            None => module + offset > usize::MAX,
        },
{
    module.checked_add(offset)
}

/// How much the log records.
#[derive(Debug, Clone, Copy, PartialEq, Eq, Structural)]
pub enum LogLevel {
    Trace,
    Debug,
    Info,
    Warn,
    Error,
    Off,
}

/// The log level that a setting names: 0 to 5 from the most to the least
/// verbose, and `Info` for any other number.
pub open spec fn level_of(level: usize) -> LogLevel {
    if level == 0 {
        LogLevel::Trace
    } else if level == 1 {
        LogLevel::Debug
    } else if level == 2 {
        LogLevel::Info
    } else if level == 3 {
        LogLevel::Warn
    } else if level == 4 {
        LogLevel::Error
    } else if level == 5 {
        LogLevel::Off
    } else {
        LogLevel::Info
    }
}

/// Reads the log level setting.
pub fn log_level(level: usize) -> (r: LogLevel)
    ensures
        r == level_of(level),
{
    match level {
        0 => LogLevel::Trace,
        1 => LogLevel::Debug,
        2 => LogLevel::Info,
        3 => LogLevel::Warn,
        4 => LogLevel::Error,
        5 => LogLevel::Off,
        _ => LogLevel::Info,
    }
}

/// Icon of a message box shown to the user.
#[derive(Debug, Clone, Copy, PartialEq, Eq, Structural)]
pub enum MessageIconType {
    Error,
    Warning,
    Info,
}

impl MessageIconType {
    /// The flag value that the message box function takes for this icon.
    pub fn code(&self) -> (r: u32)
        ensures
            r == match self {
                MessageIconType::Error => 0x10u32,
                MessageIconType::Warning => 0x20u32,
                MessageIconType::Info => 0x40u32,
            },
    {
        match self {
            MessageIconType::Error => 0x10,
            MessageIconType::Warning => 0x20,
            MessageIconType::Info => 0x40,
        }
    }
}

} // verus!
