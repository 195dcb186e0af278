use dfint_hook::config::{
    resolve_version, Config, ConfigMetadata, MainConfig, Offsets, OffsetsMetadata, OffsetsValues,
    Settings, SymbolsValues,
};
use dfint_hook::encoding::Encoding;
use dfint_hook::hooks::{
    strategy, HookError, HookName, HookRegistry, HookState, Platform, Strategy, Target,
};

fn main_config(translation: bool, search: bool) -> MainConfig {
    MainConfig {
        metadata: ConfigMetadata { name: String::from("dfint localization hook") },
        settings: Settings {
            log_level: 2,
            log_file: String::from("dfint.log"),
            enable_search: search,
            enable_translation: translation,
            watchdog: true,
        },
    }
}

fn offsets() -> OffsetsValues {
    OffsetsValues {
        string_copy_n: Some(0x100),
        string_append_n: Some(0x200),
        std_string_ctor: None,
        addst: Some(0x300),
        addst_top: None,
        addst_flag: Some(0x500),
        standardstringentry: Some(0x600),
        simplify_string: Some(0x700),
        upper_case_string: Some(0x800),
        lower_case_string: Some(0x900),
        capitalize_string_words: Some(0xa00),
        capitalize_string_first_word: Some(0xb00),
        utf_input: None,
    }
}

fn sym(name: &str) -> Option<Vec<String>> {
    Some(vec![String::from("self"), String::from(name)])
}

fn symbols() -> SymbolsValues {
    SymbolsValues {
        addst: sym("_ZN9graphicst5addstE"),
        addst_top: sym("_ZN9graphicst9addst_topE"),
        addst_flag: None,
        standardstringentry: sym("_Z19standardstringentry"),
        simplify_string: sym("_Z15simplify_string"),
        upper_case_string: sym("_Z17upper_case_string"),
        lower_case_string: sym("_Z17lower_case_string"),
        capitalize_string_words: sym("_Z23capitalize_string_words"),
        capitalize_string_first_word: Some(vec![String::from("only-one")]),
        std_string_append: sym("_ZNSs6appendEPKc"),
        std_string_assign: sym("_ZNSs6assignEPKc"),
        enabler: sym("enabler"),
    }
}

fn descriptor(checksum: u32) -> Offsets {
    Offsets {
        metadata: OffsetsMetadata {
            name: String::from("Dwarf Fortress"),
            version: String::from("50.11"),
            checksum,
        },
        offsets: Some(offsets()),
        symbols: Some(symbols()),
    }
}

fn config(checksum: u32, translation: bool, search: bool, parsed: bool) -> Config {
    let encoding = if parsed {
        Encoding::new(Some("[maps.capitalize]\n[maps.lowercast]\n[maps.simplify]\n[maps.uppercase]\n[maps.lowercase]\n[maps.utf]\n"))
    } else {
        Encoding::new(None)
    };
    Config::new(
        main_config(translation, search),
        encoding,
        checksum,
        vec![descriptor(0x1111), descriptor(0x2222)],
        String::from("1.0"),
    )
}

#[test]
fn version_resolution_picks_first_match() {
    let list = vec![descriptor(1), descriptor(2), descriptor(2)];
    assert_eq!(resolve_version(&list, 2), Some(1));
    assert_eq!(resolve_version(&list, 3), None);
    let c = config(0x2222, true, true, true);
    assert_eq!(c.offset_metadata.checksum, 0x2222);
    assert_eq!(c.offset_metadata.version, "50.11");
    assert!(c.offset.is_some());
}

#[test]
fn unmatched_version_installs_nothing() {
    let c = config(0xdead, true, true, true);
    assert_eq!(c.offset_metadata.name, "not found");
    assert_eq!(c.offset_metadata.version, "not found");
    assert_eq!(c.offset_metadata.checksum, 0xdead);
    assert!(c.offset.is_none() && c.symbol.is_none());
    for platform in [Platform::Windows, Platform::Linux] {
        let mut reg = HookRegistry::new(&c, platform, 0x400000);
        assert!(reg.attach_plan(&c).is_empty());
        assert_eq!(reg.attach_all(&c, &vec![]), Ok(()));
        assert!(reg.states.iter().all(|s| *s == HookState::Uninitialized));
    }
}

#[test]
fn strategies_per_platform() {
    assert_eq!(strategy(HookName::StringCopyN, Platform::Windows), Strategy::ByOffset);
    assert_eq!(strategy(HookName::StringCopyN, Platform::Linux), Strategy::Bypass);
    assert_eq!(strategy(HookName::StdStringAssign, Platform::Windows), Strategy::Bypass);
    assert_eq!(strategy(HookName::StdStringAssign, Platform::Linux), Strategy::BySymbol);
    assert_eq!(strategy(HookName::Addst, Platform::Linux), Strategy::BySymbol);
    assert_eq!(strategy(HookName::Addst, Platform::Windows), Strategy::ByOffset);
}

#[test]
fn targets_are_resolved() {
    let c = config(0x1111, true, true, true);
    let win = HookRegistry::new(&c, Platform::Windows, 0x400000);
    assert!(matches!(win.hooks[0].target, Target::Address(0x400100)));
    assert!(matches!(win.hooks[2].target, Target::Absent));
    assert!(matches!(win.hooks[5].target, Target::Absent));
    let lin = HookRegistry::new(&c, Platform::Linux, 0);
    assert!(matches!(lin.hooks[0].target, Target::Absent));
    match &lin.hooks[4].target {
        Target::Symbol(m, s) => {
            assert_eq!(m, "self");
            assert_eq!(s, "_ZN9graphicst5addstE");
        }
        _ => panic!("expected a symbol"),
    }
    assert!(matches!(lin.hooks[6].target, Target::Absent));
    assert!(matches!(lin.hooks[12].target, Target::Absent));
    let high = HookRegistry::new(&c, Platform::Windows, usize::MAX - 0x150);
    assert!(matches!(high.hooks[0].target, Target::Address(a) if a == usize::MAX - 0x50));
    assert!(matches!(high.hooks[1].target, Target::Absent));
}

#[test]
fn matched_version_enables_every_located_hook() {
    let c = config(0x1111, true, true, true);
    let mut reg = HookRegistry::new(&c, Platform::Windows, 0x400000);
    let plan = reg.attach_plan(&c);
    assert_eq!(plan, vec![0, 1, 4, 6, 7, 8, 9, 10, 11, 12]);
    let ok = vec![true; plan.len()];
    assert_eq!(reg.attach_all(&c, &ok), Ok(()));
    for i in 0..13 {
        let expected = if plan.contains(&i) { HookState::Enabled } else { HookState::Uninitialized };
        assert_eq!(reg.states[i], expected);
    }
}

#[test]
fn groups_follow_settings() {
    let c = config(0x1111, false, true, false);
    let reg = HookRegistry::new(&c, Platform::Windows, 0);
    assert!(reg.attach_plan(&c).is_empty());
    let c2 = config(0x1111, false, true, true);
    let reg2 = HookRegistry::new(&c2, Platform::Linux, 0);
    assert_eq!(reg2.attach_plan(&c2), vec![7, 8, 9, 10, 11]);
}

#[test]
fn failed_install_stops_attach() {
    let c = config(0x1111, true, true, true);
    let mut reg = HookRegistry::new(&c, Platform::Windows, 0);
    let plan = reg.attach_plan(&c);
    assert_eq!(reg.attach_all(&c, &vec![true, true, false, true]), Err(HookError::AttachFailed(plan[2])));
    assert_eq!(reg.states[0], HookState::Enabled);
    assert_eq!(reg.states[1], HookState::Enabled);
    assert_eq!(reg.states[4], HookState::Uninitialized);
    assert_eq!(reg.states[6], HookState::Uninitialized);
}

#[test]
fn disable_and_enable_are_idempotent() {
    let c = config(0x1111, true, true, true);
    let mut reg = HookRegistry::new(&c, Platform::Windows, 0);
    let plan = reg.attach_plan(&c);
    reg.attach_all(&c, &vec![true; plan.len()]).unwrap();
    assert_eq!(reg.disable_all(), Ok(()));
    let once = reg.states.clone();
    assert_eq!(reg.disable_all(), Ok(()));
    assert_eq!(reg.states, once);
    assert!(plan.iter().all(|i| reg.states[*i] == HookState::Disabled));
    assert_eq!(reg.enable_all(), Ok(()));
    let on = reg.states.clone();
    assert_eq!(reg.enable_all(), Ok(()));
    assert_eq!(reg.states, on);
    assert!(plan.iter().all(|i| reg.states[*i] == HookState::Enabled));
}

#[test]
fn toggling_an_uninstalled_group_fails_at_first_member() {
    let c = config(0x1111, true, false, true);
    let mut reg = HookRegistry::new(&c, Platform::Windows, 0);
    let plan = reg.attach_plan(&c);
    assert_eq!(plan, vec![0, 1, 4, 6]);
    reg.attach_all(&c, &vec![true; plan.len()]).unwrap();
    assert_eq!(reg.disable_translation(), Ok(()));
    assert_eq!(reg.disable_search(), Err(HookError::NotInitialized(7)));
    let before = reg.states.clone();
    assert_eq!(reg.disable_all(), Err(HookError::NotInitialized(7)));
    assert_eq!(reg.states, before);
    assert_eq!(reg.enable_translation(), Ok(()));
    assert_eq!(reg.states[0], HookState::Enabled);
    assert_eq!(reg.enable_search(), Err(HookError::NotInitialized(7)));
}

#[test]
fn detach_removes_installed_hooks() {
    let c = config(0x1111, true, false, true);
    let mut reg = HookRegistry::new(&c, Platform::Windows, 0);
    let plan = reg.attach_plan(&c);
    reg.attach_all(&c, &vec![true; plan.len()]).unwrap();
    reg.disable_translation().unwrap();
    reg.remove_all();
    assert_eq!(reg.states[0], HookState::Removed);
    assert_eq!(reg.states[7], HookState::Uninitialized);
    assert_eq!(reg.enable_translation(), Err(HookError::NotInitialized(0)));
}
