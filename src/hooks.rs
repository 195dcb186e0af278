use vstd::prelude::*;

use crate::config::{Config, OffsetsValues, SymbolsValues};
use crate::utils::address;

verus! {

/// The intercepted host functions, translation group first.
#[derive(Debug, Clone, Copy, PartialEq, Eq, Structural)]
pub enum HookName {
    StringCopyN,
    StringAppendN,
    StdStringAppend,
    StdStringAssign,
    Addst,
    AddstTop,
    AddstFlag,
    Standardstringentry,
    SimplifyString,
    UpperCaseString,
    LowerCaseString,
    CapitalizeStringWords,
    CapitalizeStringFirstWord,
}

/// Number of intercepted functions.
pub const HOOK_COUNT: usize = 13;

/// The translation group is the first `TRANSLATION_COUNT` hooks; the search
/// group is the rest.
pub const TRANSLATION_COUNT: usize = 7;

/// The host platform, which decides the string layout and how each function
/// is found.
#[derive(Debug, Clone, Copy, PartialEq, Eq, Structural)]
pub enum Platform {
    Linux,
    Windows,
}

/// How a function is found on a platform.
#[derive(Debug, Clone, Copy, PartialEq, Eq, Structural)]
pub enum Strategy {
    /// By its offset from the module base.
    ByOffset,
    /// By module and symbol name.
    BySymbol,
    /// Not intercepted on this platform.
    Bypass,
}

/// Where a hook's function is.
#[derive(Debug)]
pub enum Target {
    /// At this absolute address.
    Address(usize),
    /// Under this symbol of this module; the module `self` is the host image.
    Symbol(String, String),
    /// Nowhere: the hook is a no-op on this host.
    Absent,
}

/// Life cycle of one hook.
#[derive(Debug, Clone, Copy, PartialEq, Eq, Structural)]
pub enum HookState {
    Uninitialized,
    Enabled,
    Disabled,
    Removed,
}

/// Why a hook operation failed.
#[derive(Debug, Clone, Copy, PartialEq, Eq, Structural)]
pub enum HookError {
    /// The trampoline of the hook at this position could not be installed.
    AttachFailed(usize),
    /// The hook at this position has no installed trampoline to toggle.
    NotInitialized(usize),
}

/// One intercepted function and where it is.
pub struct Hook {
    pub name: HookName,
    pub target: Target,
}

/// Every hook with its state, in the order of `HookName`.
pub struct HookRegistry {
    pub hooks: Vec<Hook>,
    pub states: Vec<HookState>,
}

/// Name of the hook at position `i`.
pub open spec fn name_at(i: int) -> HookName {
    if i == 0 {
        HookName::StringCopyN
    } else if i == 1 {
        HookName::StringAppendN
    } else if i == 2 {
        HookName::StdStringAppend
    } else if i == 3 {
        HookName::StdStringAssign
    } else if i == 4 {
        HookName::Addst
    } else if i == 5 {
        HookName::AddstTop
    } else if i == 6 {
        HookName::AddstFlag
    } else if i == 7 {
        HookName::Standardstringentry
    } else if i == 8 {
        HookName::SimplifyString
    } else if i == 9 {
        HookName::UpperCaseString
    } else if i == 10 {
        HookName::LowerCaseString
    } else if i == 11 {
        HookName::CapitalizeStringWords
    } else {
        HookName::CapitalizeStringFirstWord
    }
}

fn hook_name(i: usize) -> (r: HookName)
    ensures
        r == name_at(i as int),
{
    match i {
        0 => HookName::StringCopyN,
        1 => HookName::StringAppendN,
        2 => HookName::StdStringAppend,
        3 => HookName::StdStringAssign,
        4 => HookName::Addst,
        5 => HookName::AddstTop,
        6 => HookName::AddstFlag,
        7 => HookName::Standardstringentry,
        8 => HookName::SimplifyString,
        9 => HookName::UpperCaseString,
        10 => HookName::LowerCaseString,
        11 => HookName::CapitalizeStringWords,
        _ => HookName::CapitalizeStringFirstWord,
    }
}

/// How each function is found: the raw copy and append functions only by
/// offset on Windows, the standard string functions only by symbol on
/// Linux, every other function by offset on Windows and by symbol on Linux.
pub open spec fn strategy_of(name: HookName, platform: Platform) -> Strategy {
    match name {
        HookName::StringCopyN | HookName::StringAppendN => match platform {
            Platform::Windows => Strategy::ByOffset,
            Platform::Linux => Strategy::Bypass,
        },
        HookName::StdStringAppend | HookName::StdStringAssign => match platform {
            Platform::Windows => Strategy::Bypass,
            Platform::Linux => Strategy::BySymbol,
        },
        _ => match platform {
            Platform::Windows => Strategy::ByOffset,
            Platform::Linux => Strategy::BySymbol,
        },
    }
}

pub fn strategy(name: HookName, platform: Platform) -> (r: Strategy)
    ensures
        r == strategy_of(name, platform),
{
    match name {
        HookName::StringCopyN | HookName::StringAppendN => match platform {
            Platform::Windows => Strategy::ByOffset,
            Platform::Linux => Strategy::Bypass,
        },
        HookName::StdStringAppend | HookName::StdStringAssign => match platform {
            Platform::Windows => Strategy::Bypass,
            Platform::Linux => Strategy::BySymbol,
        },
        _ => match platform {
            Platform::Windows => Strategy::ByOffset,
            Platform::Linux => Strategy::BySymbol,
        },
    }
}

/// The offset that a table gives for a function.
pub open spec fn offset_of(o: OffsetsValues, name: HookName) -> Option<usize> {
    match name {
        HookName::StringCopyN => o.string_copy_n,
        HookName::StringAppendN => o.string_append_n,
        HookName::StdStringAppend => None,
        HookName::StdStringAssign => None,
        HookName::Addst => o.addst,
        HookName::AddstTop => o.addst_top,
        HookName::AddstFlag => o.addst_flag,
        HookName::Standardstringentry => o.standardstringentry,
        HookName::SimplifyString => o.simplify_string,
        HookName::UpperCaseString => o.upper_case_string,
        HookName::LowerCaseString => o.lower_case_string,
        HookName::CapitalizeStringWords => o.capitalize_string_words,
        HookName::CapitalizeStringFirstWord => o.capitalize_string_first_word,
    }
}

fn offset_entry(o: &OffsetsValues, name: HookName) -> (r: Option<usize>)
    ensures
        r == offset_of(*o, name),
{
    match name {
        HookName::StringCopyN => o.string_copy_n,
        HookName::StringAppendN => o.string_append_n,
        HookName::StdStringAppend => None,
        HookName::StdStringAssign => None,
        HookName::Addst => o.addst,
        HookName::AddstTop => o.addst_top,
        HookName::AddstFlag => o.addst_flag,
        HookName::Standardstringentry => o.standardstringentry,
        HookName::SimplifyString => o.simplify_string,
        HookName::UpperCaseString => o.upper_case_string,
        HookName::LowerCaseString => o.lower_case_string,
        HookName::CapitalizeStringWords => o.capitalize_string_words,
        HookName::CapitalizeStringFirstWord => o.capitalize_string_first_word,
    }
}

/// The module and symbol entry that a table gives for a function.
pub open spec fn symbol_of(s: SymbolsValues, name: HookName) -> Option<Vec<String>> {
    match name {
        HookName::StringCopyN => None,
        HookName::StringAppendN => None,
        HookName::StdStringAppend => s.std_string_append,
        HookName::StdStringAssign => s.std_string_assign,
        HookName::Addst => s.addst,
        HookName::AddstTop => s.addst_top,
        HookName::AddstFlag => s.addst_flag,
        HookName::Standardstringentry => s.standardstringentry,
        HookName::SimplifyString => s.simplify_string,
        HookName::UpperCaseString => s.upper_case_string,
        HookName::LowerCaseString => s.lower_case_string,
        HookName::CapitalizeStringWords => s.capitalize_string_words,
        HookName::CapitalizeStringFirstWord => s.capitalize_string_first_word,
    }
}

fn symbol_entry(s: &SymbolsValues, name: HookName) -> (r: Option<&Vec<String>>)
    ensures
        match symbol_of(*s, name) {
            Some(v) => r == Some(&v),
            None => r.is_none(),
        },
{
    match name {
        HookName::StringCopyN => None,
        HookName::StringAppendN => None,
        HookName::StdStringAppend => s.std_string_append.as_ref(),
        HookName::StdStringAssign => s.std_string_assign.as_ref(),
        HookName::Addst => s.addst.as_ref(),
        HookName::AddstTop => s.addst_top.as_ref(),
        HookName::AddstFlag => s.addst_flag.as_ref(),
        HookName::Standardstringentry => s.standardstringentry.as_ref(),
        HookName::SimplifyString => s.simplify_string.as_ref(),
        HookName::UpperCaseString => s.upper_case_string.as_ref(),
        HookName::LowerCaseString => s.lower_case_string.as_ref(),
        HookName::CapitalizeStringWords => s.capitalize_string_words.as_ref(),
        HookName::CapitalizeStringFirstWord => s.capitalize_string_first_word.as_ref(),
    }
}

/// Whether `t` is where the configuration puts function `name`: found by
/// offset, it is the module base plus the offset, where that fits; found by
/// symbol, it is the module and symbol named by the first two items of the
/// entry; otherwise, or without an entry, it is absent.
pub open spec fn resolves_to(
    t: Target,
    config: Config,
    name: HookName,
    platform: Platform,
    module_base: usize,
) -> bool {
    match strategy_of(name, platform) {
        Strategy::ByOffset => match config.offset {
            Some(o) => match offset_of(o, name) {
                Some(off) => if module_base + off <= usize::MAX {
                    t == Target::Address((module_base + off) as usize)
                } else {
                    t is Absent
                },
                None => t is Absent,
            },
            None => t is Absent,
        },
        Strategy::BySymbol => match config.symbol {
            Some(s) => match symbol_of(s, name) {
                Some(v) => if v@.len() >= 2 {
                    t matches Target::Symbol(m, sym) && m@ == v@[0]@ && sym@ == v@[1]@
                } else {
                    t is Absent
                },
                None => t is Absent,
            },
            None => t is Absent,
        },
        Strategy::Bypass => t is Absent,
    }
}

/// Whether the configuration locates function `name` on this platform.
pub open spec fn located(config: Config, name: HookName, platform: Platform, module_base: usize) -> bool {
    match strategy_of(name, platform) {
        Strategy::ByOffset => match config.offset {
            Some(o) => match offset_of(o, name) {
                Some(off) => module_base + off <= usize::MAX,
                None => false,
            },
            None => false,
        },
        Strategy::BySymbol => match config.symbol {
            Some(s) => match symbol_of(s, name) {
                Some(v) => v@.len() >= 2,
                None => false,
            },
            None => false,
        },
        Strategy::Bypass => false,
    }
}

/// Finds where function `name` is on this host.
pub fn resolve_target(config: &Config, name: HookName, platform: Platform, module_base: usize) -> (r:
    Target)
    ensures
        resolves_to(r, *config, name, platform, module_base),
        !(r is Absent) <==> located(*config, name, platform, module_base),
{
    match strategy(name, platform) {
        Strategy::ByOffset => match &config.offset {
            Some(o) => match offset_entry(o, name) {
                Some(off) => match address(module_base, off) {
                    Some(a) => Target::Address(a),
                    None => Target::Absent,
                },
                None => Target::Absent,
            },
            None => Target::Absent,
        },
        Strategy::BySymbol => match &config.symbol {
            Some(s) => match symbol_entry(s, name) {
                Some(v) => if v.len() >= 2 {
                    Target::Symbol(v[0].clone(), v[1].clone())
                } else {
                    Target::Absent
                },
                None => Target::Absent,
            },
            None => Target::Absent,
        },
        Strategy::Bypass => Target::Absent,
    }
}

/// Whether the hook at position `i` belongs to a group that the settings
/// turn on: translation when it is enabled, search when it is enabled and
/// the encoding tables were read.
pub open spec fn group_enabled(config: Config, i: int) -> bool {
    if i < TRANSLATION_COUNT {
        config.settings.enable_translation
    } else {
        config.settings.enable_search && config.encoding.parsed
    }
}

/// Positions below `n` of the hooks to install, in increasing order: those
/// that are located and whose group is on.
pub open spec fn plan_upto(present: Seq<bool>, config: Config, n: int) -> Seq<usize>
    decreases n,
{
    if n <= 0 {
        Seq::empty()
    } else {
        let p = plan_upto(present, config, n - 1);
        if present[n - 1] && group_enabled(config, n - 1) {
            p.push((n - 1) as usize)
        } else {
            p
        }
    }
}

/// Number of leading installations, among the first `n`, that succeeded.
pub open spec fn leading(installed: Seq<bool>, n: int) -> int
    decreases n,
{
    if n <= 0 {
        0
    } else {
        let k = leading(installed, n - 1);
        if k == n - 1 && n - 1 < installed.len() && installed[n - 1] {
            n
        } else {
            k
        }
    }
}

/// A trampoline that is missing blocks a toggle of its hook.
pub open spec fn blocking(present: bool, s: HookState) -> bool {
    present && (s is Uninitialized || s is Removed)
}

/// Number of members that a group toggle gets through before a blocking one.
pub open spec fn first_blocking(present: Seq<bool>, states: Seq<HookState>, m: Seq<usize>) -> nat
    decreases m.len(),
{
    if m.len() == 0 {
        0
    } else if blocking(present[m[0] as int], states[m[0] as int]) {
        0
    } else {
        1 + first_blocking(present, states, m.drop_first())
    }
}

/// States after a group toggle: every located member before the first
/// blocking one is enabled, or disabled; everything else is kept.
pub open spec fn toggled(
    present: Seq<bool>,
    states: Seq<HookState>,
    m: Seq<usize>,
    enable: bool,
) -> Seq<HookState> {
    let k = first_blocking(present, states, m);
    Seq::new(
        states.len(),
        |i: int|
            if present[i] && exists|j: int| 0 <= j < k && m[j] == i {
                if enable {
                    HookState::Enabled
                } else {
                    HookState::Disabled
                }
            } else {
                states[i]
            },
    )
}

proof fn lemma_first_blocking(present: Seq<bool>, states: Seq<HookState>, m: Seq<usize>)
    ensures
        first_blocking(present, states, m) <= m.len(),
        forall|j: int|
            0 <= j < first_blocking(present, states, m) ==> !blocking(
                present[m[j] as int],
                states[m[j] as int],
            ),
        first_blocking(present, states, m) < m.len() ==> blocking(
            present[m[first_blocking(present, states, m) as int] as int],
            states[m[first_blocking(present, states, m) as int] as int],
        ),
    decreases m.len(),
{
    if m.len() > 0 && !blocking(present[m[0] as int], states[m[0] as int]) {
        lemma_first_blocking(present, states, m.drop_first());
        assert forall|j: int| 0 <= j < first_blocking(present, states, m) implies !blocking(
            present[m[j] as int],
            states[m[j] as int],
        ) by {
            if j > 0 {
                assert(m[j] == m.drop_first()[j - 1]);
            }
        }
    }
}

proof fn lemma_first_blocking_unique(
    present: Seq<bool>,
    states: Seq<HookState>,
    m: Seq<usize>,
    k: int,
)
    requires
        0 <= k <= m.len(),
        forall|j: int| 0 <= j < k ==> !blocking(present[m[j] as int], states[m[j] as int]),
        k < m.len() ==> blocking(present[m[k] as int], states[m[k] as int]),
    ensures
        first_blocking(present, states, m) == k,
    decreases m.len(),
{
    if m.len() > 0 && k > 0 {
        assert forall|j: int| 0 <= j < k - 1 implies !blocking(
            present[m.drop_first()[j] as int],
            states[m.drop_first()[j] as int],
        ) by {
            assert(m.drop_first()[j] == m[j + 1]);
        }
        lemma_first_blocking_unique(present, states, m.drop_first(), k - 1);
    }
}

/// Toggling a group a second time in the same direction changes nothing:
/// the first toggle already enabled, or disabled, every member it could
/// reach, and stopped at the same blocking member the second one meets.
pub proof fn lemma_toggle_idempotent(
    present: Seq<bool>,
    states: Seq<HookState>,
    m: Seq<usize>,
    enable: bool,
)
    requires
        present.len() == states.len(),
        forall|j: int| 0 <= j < m.len() ==> m[j] < states.len(),
    ensures
        toggled(present, toggled(present, states, m, enable), m, enable) == toggled(
            present,
            states,
            m,
            enable,
        ),
{
    let s1 = toggled(present, states, m, enable);
    let k = first_blocking(present, states, m);
    lemma_first_blocking(present, states, m);
    assert forall|j: int| 0 <= j < k implies !blocking(present[m[j] as int], s1[m[j] as int]) by {
        if present[m[j] as int] {
            assert(exists|jj: int| 0 <= jj < k && m[jj] == m[j]);
        }
    }
    if k < m.len() {
        assert(s1[m[k as int] as int] == states[m[k as int] as int]) by {
            if exists|jj: int| 0 <= jj < k && m[jj] == m[k as int] {
                let jj = choose|jj: int| 0 <= jj < k && m[jj] == m[k as int];
                assert(!blocking(present[m[jj] as int], states[m[jj] as int]));
            }
        }
    }
    lemma_first_blocking_unique(present, s1, m, k as int);
    assert(toggled(present, s1, m, enable) =~= s1);
}

/// States after detaching: every installed trampoline is removed.
pub open spec fn removed(states: Seq<HookState>) -> Seq<HookState> {
    Seq::new(
        states.len(),
        |i: int|
            if states[i] is Enabled || states[i] is Disabled {
                HookState::Removed
            } else {
                states[i]
            },
    )
}

/// A configuration without tables, as an unmatched version gives, locates
/// no function, so no hook is installed.
pub proof fn lemma_unmatched_version_locates_nothing(
    config: Config,
    name: HookName,
    platform: Platform,
    module_base: usize,
)
    requires
        config.offset.is_none(),
        config.symbol.is_none(),
    ensures
        !located(config, name, platform, module_base),
{
}

/// Positions from `a` up to, not including, `b`.
pub open spec fn span(a: int, b: int) -> Seq<usize> {
    Seq::new((b - a) as nat, |j: int| (a + j) as usize)
}

fn span_vec(a: usize, b: usize) -> (r: Vec<usize>)
    requires
        a <= b,
    ensures
        r@ == span(a as int, b as int),
{
    let mut out: Vec<usize> = Vec::new();
    let mut i: usize = a;
    while i < b
        invariant
            a <= i <= b,
            out@ == span(a as int, i as int),
        decreases b - i,
    {
        out.push(i);
        i = i + 1;
        proof {
            assert(out@ =~= span(a as int, i as int));
        }
    }
    out
}

/// What a group toggle over `members` leaves and returns: the toggled
/// states, and success exactly when no member blocked it, else the error of
/// the first blocking member.
pub open spec fn toggle_outcome(
    present: Seq<bool>,
    states: Seq<HookState>,
    members: Seq<usize>,
    enable: bool,
    after: Seq<HookState>,
    r: Result<(), HookError>,
) -> bool {
    let k = first_blocking(present, states, members);
    &&& after == toggled(present, states, members, enable)
    &&& (r is Ok <==> k == members.len())
    &&& (r matches Err(e) ==> k < members.len() && e == HookError::NotInitialized(members[k as int]))
}

/// Disabling every hook twice in a row leaves the states that disabling them
/// once leaves; the same holds of enabling.
pub proof fn lemma_group_toggle_idempotent(present: Seq<bool>, states: Seq<HookState>, enable: bool)
    requires
        present.len() == HOOK_COUNT,
        states.len() == HOOK_COUNT,
    ensures
        toggled(present, toggled(present, states, span(0, HOOK_COUNT as int), enable), span(0, HOOK_COUNT as int), enable)
            == toggled(present, states, span(0, HOOK_COUNT as int), enable),
{
    lemma_toggle_idempotent(present, states, span(0, HOOK_COUNT as int), enable);
}

proof fn lemma_plan_bounds(present: Seq<bool>, config: Config, n: int)
    requires
        n <= usize::MAX,
    ensures
        forall|j: int| 0 <= j < plan_upto(present, config, n).len() ==> plan_upto(present, config, n)[j] < n,
        forall|j: int|
            0 <= j < plan_upto(present, config, n).len() ==> #[trigger] present[plan_upto(present, config, n)[j] as int]
                && group_enabled(config, plan_upto(present, config, n)[j] as int),
        forall|i: int|
            0 <= i < n && present[i] && group_enabled(config, i) ==> exists|j: int|
                0 <= j < plan_upto(present, config, n).len() && plan_upto(present, config, n)[j] == i,
    decreases n,
{
    if n > 0 {
        lemma_plan_bounds(present, config, n - 1);
        let p = plan_upto(present, config, n - 1);
        assert forall|i: int| 0 <= i < n && present[i] && group_enabled(config, i) implies exists|j: int|
            0 <= j < plan_upto(present, config, n).len() && plan_upto(present, config, n)[j] == i by {
            if i < n - 1 {
                let j = choose|j: int| 0 <= j < p.len() && p[j] == i;
                assert(plan_upto(present, config, n)[j] == i);
            } else {
                assert(plan_upto(present, config, n)[p.len() as int] == i);
            }
        }
    }
}

proof fn lemma_leading_all(installed: Seq<bool>, n: int)
    requires
        0 <= n,
        n <= installed.len(),
        forall|k: int| 0 <= k < n ==> #[trigger] installed[k] == true,
    ensures
        leading(installed, n) == n,
    decreases n,
{
    if n > 0 {
        lemma_leading_all(installed, n - 1);
        assert(installed[n - 1]);
    }
}

/// When a version matched and every planned installation succeeds, every
/// hook that the configuration locates, in a group the settings turn on,
/// ends enabled: these are the states that `attach_all` leaves then.
pub proof fn lemma_full_attach_enables_located(
    present: Seq<bool>,
    config: Config,
    installed: Seq<bool>,
    before: Seq<HookState>,
)
    requires
        present.len() == HOOK_COUNT,
        plan_upto(present, config, HOOK_COUNT as int).len() <= installed.len(),
        forall|k: int|
            0 <= k < plan_upto(present, config, HOOK_COUNT as int).len() ==> #[trigger] installed[k]
                == true,
    ensures
        ({
            let p = plan_upto(present, config, HOOK_COUNT as int);
            let after = Seq::new(
                HOOK_COUNT as nat,
                |i: int|
                    if exists|k: int| 0 <= k < leading(installed, p.len() as int) && p[k] == i {
                        HookState::Enabled
                    } else {
                        before[i]
                    },
            );
            forall|i: int|
                0 <= i < HOOK_COUNT && present[i] && group_enabled(config, i) ==> after[i]
                    == HookState::Enabled
        }),
{
    let p = plan_upto(present, config, HOOK_COUNT as int);
    lemma_plan_bounds(present, config, HOOK_COUNT as int);
    lemma_leading_all(installed, p.len() as int);
}

proof fn lemma_leading_stops(installed: Seq<bool>, k: int, n: int)
    requires
        0 <= k < n,
        leading(installed, k) == k,
        !(k < installed.len() && installed[k]),
    ensures
        leading(installed, n) == k,
    decreases n - k,
{
    if n > k + 1 {
        lemma_leading_stops(installed, k, n - 1);
    }
}

impl HookRegistry {
    /// Whether each hook's function was located.
    pub open spec fn present(&self) -> Seq<bool> {
        Seq::new(self.hooks@.len(), |i: int| !(self.hooks@[i].target is Absent))
    }

    pub open spec fn wf(&self) -> bool {
        &&& self.hooks@.len() == HOOK_COUNT
        &&& self.states@.len() == HOOK_COUNT
        &&& forall|i: int| 0 <= i < HOOK_COUNT ==> (#[trigger] self.hooks@[i]).name == name_at(i)
    }

    /// Every hook of the configuration, located for this platform and module
    /// base, none installed.
    pub fn new(config: &Config, platform: Platform, module_base: usize) -> (r: HookRegistry)
        ensures
            r.wf(),
            forall|i: int| 0 <= i < HOOK_COUNT ==> #[trigger] r.states@[i] == HookState::Uninitialized,
            forall|i: int|
                0 <= i < HOOK_COUNT ==> resolves_to(
                    #[trigger] r.hooks@[i].target,
                    *config,
                    name_at(i),
                    platform,
                    module_base,
                ),
            forall|i: int|
                0 <= i < HOOK_COUNT ==> #[trigger] r.present()[i] == located(
                    *config,
                    name_at(i),
                    platform,
                    module_base,
                ),
    {
        let mut hooks: Vec<Hook> = Vec::new();
        let mut states: Vec<HookState> = Vec::new();
        let mut i: usize = 0;
        while i < HOOK_COUNT
            invariant
                i <= HOOK_COUNT,
                hooks@.len() == i,
                states@.len() == i,
                forall|j: int| 0 <= j < i ==> #[trigger] states@[j] == HookState::Uninitialized,
                forall|j: int|
                    0 <= j < i ==> (#[trigger] hooks@[j]).name == name_at(j) && resolves_to(
                        hooks@[j].target,
                        *config,
                        name_at(j),
                        platform,
                        module_base,
                    ) && (!(hooks@[j].target is Absent) <==> located(
                        *config,
                        name_at(j),
                        platform,
                        module_base,
                    )),
            decreases HOOK_COUNT - i,
        {
            let name = hook_name(i);
            let target = resolve_target(config, name, platform, module_base);
            hooks.push(Hook { name, target });
            states.push(HookState::Uninitialized);
            i = i + 1;
        }
        HookRegistry { hooks, states }
    }

    /// Positions of the hooks to install, in increasing order.
    pub fn attach_plan(&self, config: &Config) -> (r: Vec<usize>)
        requires
            self.wf(),
        ensures
            r@ == plan_upto(self.present(), *config, HOOK_COUNT as int),
    {
        let mut out: Vec<usize> = Vec::new();
        let mut i: usize = 0;
        while i < HOOK_COUNT
            invariant
                self.wf(),
                i <= HOOK_COUNT,
                out@ == plan_upto(self.present(), *config, i as int),
            decreases HOOK_COUNT - i,
        {
            let present = match self.hooks[i].target {
                Target::Absent => false,
                _ => true,
            };
            let on = if i < TRANSLATION_COUNT {
                config.settings.enable_translation
            } else {
                config.settings.enable_search && config.encoding.parsed
            };
            if present && on {
                out.push(i);
            }
            i = i + 1;
        }
        out
    }

    /// Records the outcome of installing the planned hooks in order, where
    /// `installed[k]` tells whether the `k`-th planned installation
    /// succeeded: each hook is enabled up to the first failure, which stops
    /// the rest; hooks installed before it stay installed.
    pub fn attach_all(&mut self, config: &Config, installed: &Vec<bool>) -> (r: Result<(), HookError>)
        requires
            old(self).wf(),
        ensures
            final(self).wf(),
            final(self).hooks == old(self).hooks,
            ({
                let p = plan_upto(old(self).present(), *config, HOOK_COUNT as int);
                let f = leading(installed@, p.len() as int);
                &&& final(self).states@ == Seq::new(
                    HOOK_COUNT as nat,
                    |i: int|
                        if exists|k: int| 0 <= k < f && p[k] == i {
                            HookState::Enabled
                        } else {
                            old(self).states@[i]
                        },
                )
                &&& (r is Ok <==> f == p.len())
                &&& (r matches Err(e) ==> 0 <= f < p.len() && e == HookError::AttachFailed(p[f]))
            }),
    {
        let plan = self.attach_plan(config);
        let ghost p = plan@;
        let ghost old_states = self.states@;
        proof {
            lemma_plan_bounds(self.present(), *config, HOOK_COUNT as int);
        }
        let mut k: usize = 0;
        while k < plan.len()
            invariant
                self.wf(),
                self.hooks == old(self).hooks,
                plan@ == p,
                p == plan_upto(old(self).present(), *config, HOOK_COUNT as int),
                old_states == old(self).states@,
                forall|j: int| 0 <= j < p.len() ==> p[j] < HOOK_COUNT,
                k <= p.len(),
                leading(installed@, k as int) == k,
                self.states@ == Seq::new(
                    HOOK_COUNT as nat,
                    |i: int|
                        if exists|kk: int| 0 <= kk < k && p[kk] == i {
                            HookState::Enabled
                        } else {
                            old_states[i]
                        },
                ),
            decreases p.len() - k,
        {
            if k < installed.len() && installed[k] {
                let ghost before = self.states@;
                self.states.set(plan[k], HookState::Enabled);
                proof {
                    assert(self.states@ =~= Seq::new(
                        HOOK_COUNT as nat,
                        |i: int|
                            if exists|kk: int| 0 <= kk < k + 1 && p[kk] == i {
                                HookState::Enabled
                            } else {
                                old_states[i]
                            },
                    )) by {
                        assert forall|i: int| 0 <= i < HOOK_COUNT implies self.states@[i] == (
                            if exists|kk: int| 0 <= kk < k + 1 && p[kk] == i {
                                HookState::Enabled
                            } else {
                                old_states[i]
                            }) by {
                            if i == p[k as int] {
                                assert(exists|kk: int| 0 <= kk < k + 1 && p[kk] == i);
                            } else {
                                if exists|kk: int| 0 <= kk < k + 1 && p[kk] == i {
                                    let kk = choose|kk: int| 0 <= kk < k + 1 && p[kk] == i;
                                    assert(kk < k);
                                }
                            }
                        }
                    }
                }
                k = k + 1;
            } else {
                proof {
                    lemma_leading_stops(installed@, k as int, p.len() as int);
                }
                return Err(HookError::AttachFailed(plan[k]));
            }
        }
        Ok(())
    }

    /// Enables, or disables, the members in order, stopping at the first
    /// one whose trampoline is missing.
    fn toggle_group(&mut self, members: &Vec<usize>, enable: bool) -> (r: Result<(), HookError>)
        requires
            old(self).wf(),
            forall|j: int| 0 <= j < members@.len() ==> members@[j] < HOOK_COUNT,
        ensures
            final(self).wf(),
            final(self).hooks == old(self).hooks,
            final(self).states@ == toggled(old(self).present(), old(self).states@, members@, enable),
            ({
                let k = first_blocking(old(self).present(), old(self).states@, members@);
                &&& (r is Ok <==> k == members@.len())
                &&& (r matches Err(e) ==> k < members@.len() && e == HookError::NotInitialized(
                    members@[k as int],
                ))
            }),
    {
        let ghost pr = self.present();
        let ghost old_states = self.states@;
        let ghost m = members@;
        let target = if enable {
            HookState::Enabled
        } else {
            HookState::Disabled
        };
        let mut k: usize = 0;
        while k < members.len()
            invariant
                self.wf(),
                self.hooks == old(self).hooks,
                pr == old(self).present(),
                old_states == old(self).states@,
                old_states.len() == HOOK_COUNT,
                pr.len() == HOOK_COUNT,
                m == members@,
                forall|j: int| 0 <= j < m.len() ==> m[j] < HOOK_COUNT,
                target == (if enable {
                    HookState::Enabled
                } else {
                    HookState::Disabled
                }),
                k <= m.len(),
                forall|j: int| 0 <= j < k ==> !blocking(pr[m[j] as int], old_states[m[j] as int]),
                self.states@ == Seq::new(
                    HOOK_COUNT as nat,
                    |i: int|
                        if pr[i] && exists|j: int| 0 <= j < k && m[j] == i {
                            target
                        } else {
                            old_states[i]
                        },
                ),
            decreases m.len() - k,
        {
            let i = members[k];
            let present = match self.hooks[i].target {
                Target::Absent => false,
                _ => true,
            };
            let st = self.states[i];
            proof {
                if exists|j: int| 0 <= j < k && m[j] == i {
                    let j = choose|j: int| 0 <= j < k && m[j] == i;
                    assert(!blocking(pr[m[j] as int], old_states[m[j] as int]));
                }
            }
            if present && (st == HookState::Uninitialized || st == HookState::Removed) {
                proof {
                    assert(blocking(pr[m[k as int] as int], old_states[m[k as int] as int]));
                    lemma_first_blocking_unique(pr, old_states, m, k as int);
                    assert(self.states@ =~= toggled(pr, old_states, m, enable));
                }
                return Err(HookError::NotInitialized(i));
            }
            if present {
                self.states.set(i, target);
            }
            proof {
                assert(!blocking(pr[m[k as int] as int], old_states[m[k as int] as int]));
                assert forall|ii: int| 0 <= ii < HOOK_COUNT implies self.states@[ii] == (
                    if pr[ii] && exists|j: int| 0 <= j < k + 1 && m[j] == ii {
                        target
                    } else {
                        old_states[ii]
                    }) by {
                    if ii == i {
                        if pr[ii] {
                            assert(m[k as int] == ii);
                        }
                    } else {
                        if exists|j: int| 0 <= j < k + 1 && m[j] == ii {
                            let j = choose|j: int| 0 <= j < k + 1 && m[j] == ii;
                            assert(j < k);
                        }
                    }
                }
                assert(self.states@ =~= Seq::new(
                    HOOK_COUNT as nat,
                    |ii: int|
                        if pr[ii] && exists|j: int| 0 <= j < k + 1 && m[j] == ii {
                            target
                        } else {
                            old_states[ii]
                        },
                ));
            }
            k = k + 1;
        }
        proof {
            lemma_first_blocking_unique(pr, old_states, m, m.len() as int);
            assert(self.states@ =~= toggled(pr, old_states, m, enable));
        }
        Ok(())
    }

    /// Enables the translation hooks. Hooks that were never located count as done; a
    /// located hook without a trampoline stops the walk with an error.
    pub fn enable_translation(&mut self) -> (r: Result<(), HookError>)
        requires
            old(self).wf(),
        ensures
            final(self).wf(),
            final(self).hooks == old(self).hooks,
            toggle_outcome(
                old(self).present(),
                old(self).states@,
                span(0 as int, TRANSLATION_COUNT as int),
                true,
                final(self).states@,
                r,
            ),
    {
        let members = span_vec(0, TRANSLATION_COUNT);
        self.toggle_group(&members, true)
    }

    /// Enables the search hooks. Hooks that were never located count as done; a
    /// located hook without a trampoline stops the walk with an error.
    pub fn enable_search(&mut self) -> (r: Result<(), HookError>)
        requires
            old(self).wf(),
        ensures
            final(self).wf(),
            final(self).hooks == old(self).hooks,
            toggle_outcome(
                old(self).present(),
                old(self).states@,
                span(TRANSLATION_COUNT as int, HOOK_COUNT as int),
                true,
                final(self).states@,
                r,
            ),
    {
        let members = span_vec(TRANSLATION_COUNT, HOOK_COUNT);
        self.toggle_group(&members, true)
    }

    /// Enables the translation hooks, then the search hooks. Hooks that were never located count as done; a
    /// located hook without a trampoline stops the walk with an error.
    pub fn enable_all(&mut self) -> (r: Result<(), HookError>)
        requires
            old(self).wf(),
        ensures
            final(self).wf(),
            final(self).hooks == old(self).hooks,
            toggle_outcome(
                old(self).present(),
                old(self).states@,
                span(0 as int, HOOK_COUNT as int),
                true,
                final(self).states@,
                r,
            ),
    {
        let members = span_vec(0, HOOK_COUNT);
        self.toggle_group(&members, true)
    }

    /// Disables the translation hooks. Hooks that were never located count as done; a
    /// located hook without a trampoline stops the walk with an error.
    pub fn disable_translation(&mut self) -> (r: Result<(), HookError>)
        requires
            old(self).wf(),
        ensures
            final(self).wf(),
            final(self).hooks == old(self).hooks,
            toggle_outcome(
                old(self).present(),
                old(self).states@,
                span(0 as int, TRANSLATION_COUNT as int),
                false,
                final(self).states@,
                r,
            ),
    {
        let members = span_vec(0, TRANSLATION_COUNT);
        self.toggle_group(&members, false)
    }

    /// Disables the search hooks. Hooks that were never located count as done; a
    /// located hook without a trampoline stops the walk with an error.
    pub fn disable_search(&mut self) -> (r: Result<(), HookError>)
        requires
            old(self).wf(),
        ensures
            final(self).wf(),
            final(self).hooks == old(self).hooks,
            toggle_outcome(
                old(self).present(),
                old(self).states@,
                span(TRANSLATION_COUNT as int, HOOK_COUNT as int),
                false,
                final(self).states@,
                r,
            ),
    {
        let members = span_vec(TRANSLATION_COUNT, HOOK_COUNT);
        self.toggle_group(&members, false)
    }

    /// Disables the translation hooks, then the search hooks. Hooks that were never located count as done; a
    /// located hook without a trampoline stops the walk with an error.
    pub fn disable_all(&mut self) -> (r: Result<(), HookError>)
        requires
            old(self).wf(),
        ensures
            final(self).wf(),
            final(self).hooks == old(self).hooks,
            toggle_outcome(
                old(self).present(),
                old(self).states@,
                span(0 as int, HOOK_COUNT as int),
                false,
                final(self).states@,
                r,
            ),
    {
        let members = span_vec(0, HOOK_COUNT);
        self.toggle_group(&members, false)
    }

    /// Removes every installed trampoline; hooks never installed stay as
    /// they are.
    pub fn remove_all(&mut self)
        requires
            old(self).wf(),
        ensures
            final(self).wf(),
            final(self).hooks == old(self).hooks,
            final(self).states@ == removed(old(self).states@),
    {
        let mut i: usize = 0;
        while i < self.states.len()
            invariant
                self.wf(),
                self.hooks == old(self).hooks,
                old(self).states@.len() == HOOK_COUNT,
                i <= HOOK_COUNT,
                forall|j: int| 0 <= j < i ==> self.states@[j] == removed(old(self).states@)[j],
                forall|j: int| i <= j < HOOK_COUNT ==> self.states@[j] == old(self).states@[j],
            decreases HOOK_COUNT - i,
        {
            let st = self.states[i];
            if st == HookState::Enabled || st == HookState::Disabled {
                self.states.set(i, HookState::Removed);
            }
            i = i + 1;
        }
        proof {
            assert(self.states@ =~= removed(old(self).states@));
        }
    }
}

} // verus!
