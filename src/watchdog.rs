use vstd::prelude::*;

verus! {

/// What the watchdog does after one look at the keyboard.
#[derive(Debug, Clone, Copy, PartialEq, Eq, Structural)]
pub enum WatchdogAction {
    Nothing,
    DisableAll,
    EnableAll,
}

/// One poll of the watchdog: while Ctrl+F2 is held, hooks that are on go
/// off and hooks that are off come back on. Returns whether hooks are on
/// afterwards, and what to do to make it so.
pub fn on_keys(hook_enabled: bool, f2: bool, left_control: bool) -> (r: (bool, WatchdogAction))
    ensures
        f2 && left_control ==> r == if hook_enabled {
            (false, WatchdogAction::DisableAll)
        } else {
            (true, WatchdogAction::EnableAll)
        },
        !(f2 && left_control) ==> r == (hook_enabled, WatchdogAction::Nothing),
{
    if f2 && left_control {
        if hook_enabled {
            (false, WatchdogAction::DisableAll)
        } else {
            (true, WatchdogAction::EnableAll)
        }
    } else {
        (hook_enabled, WatchdogAction::Nothing)
    }
}

} // verus!
