use dfint_hook::utils::{address, log_level, LogLevel, MessageIconType};
use dfint_hook::watchdog::{on_keys, WatchdogAction};

#[test]
fn addresses_add_offsets() {
    assert_eq!(address(0x400000, 0x1234), Some(0x401234));
    assert_eq!(address(0, 0), Some(0));
    assert_eq!(address(usize::MAX, 1), None);
}

#[test]
fn log_levels() {
    assert_eq!(log_level(0), LogLevel::Trace);
    assert_eq!(log_level(1), LogLevel::Debug);
    assert_eq!(log_level(2), LogLevel::Info);
    assert_eq!(log_level(3), LogLevel::Warn);
    assert_eq!(log_level(4), LogLevel::Error);
    assert_eq!(log_level(5), LogLevel::Off);
    assert_eq!(log_level(99), LogLevel::Info);
}

#[test]
fn icon_codes() {
    assert_eq!(MessageIconType::Error.code(), 0x10);
    assert_eq!(MessageIconType::Warning.code(), 0x20);
    assert_eq!(MessageIconType::Info.code(), 0x40);
}

#[test]
fn watchdog_toggles_on_ctrl_f2() {
    assert_eq!(on_keys(true, true, true), (false, WatchdogAction::DisableAll));
    assert_eq!(on_keys(false, true, true), (true, WatchdogAction::EnableAll));
    assert_eq!(on_keys(true, true, false), (true, WatchdogAction::Nothing));
    assert_eq!(on_keys(false, false, true), (false, WatchdogAction::Nothing));
}
