use blkbstr::config::{Action, Config, Strategy};
use blkbstr::registry::{function, functions, lint, Platform};

fn config_with(functions: &[&str]) -> Config {
    let mut cfg = Config::new("t");
    let mut s = Strategy::new("s");
    s.actions = functions.iter().map(|f| Action::new(f)).collect();
    cfg.strategies.push(s);
    cfg
}

#[test]
fn flags_unknown_functions_only() {
    let warnings = lint(&config_with(&["fake", "multisplit", "multispilt"]));
    assert_eq!(warnings.len(), 1);
    assert!(warnings[0].message.contains("multispilt"), "{warnings:?}");
}

#[test]
fn flags_a_strategy_that_does_nothing() {
    let mut cfg = Config::new("t");
    cfg.strategies.push(Strategy::new("empty"));
    assert_eq!(lint(&cfg).len(), 1);
}

#[test]
fn disabled_strategies_are_not_linted() {
    let mut cfg = config_with(&["nonsense"]);
    cfg.strategies[0].enabled = false;
    assert!(lint(&cfg).is_empty());
}

#[test]
fn compat_mismatch_warns_once_for_the_whole_config() {
    let mut cfg = config_with(&["fake"]);
    cfg.compat = 1;
    let warnings = lint(&cfg);
    assert_eq!(warnings.len(), 1);
    assert_eq!(warnings[0].strategy, None);
}

#[test]
fn function_table_has_no_duplicates() {
    let mut names: Vec<_> = functions().iter().map(|f| f.name).collect();
    let total = names.len();
    names.sort_unstable();
    names.dedup();
    assert_eq!(names.len(), total);
}

#[test]
fn each_platform_has_its_own_engine_binary() {
    let mut bins: Vec<_> = [Platform::Linux, Platform::Windows, Platform::Bsd]
        .iter()
        .map(|p| p.engine_binary())
        .collect();
    bins.sort_unstable();
    bins.dedup();
    assert_eq!(bins.len(), 3);
}

#[test]
fn known_functions_are_found_by_name() {
    assert_eq!(functions().len(), 36);
    assert_eq!(function("multisplit").map(|f| f.name), Some("multisplit"));
    assert!(function("multispilt").is_none());
    assert_eq!(Platform::from_target_os("linux"), Some(Platform::Linux));
    assert_eq!(Platform::from_target_os("plan9"), None);
}

#[test]
fn a_warning_names_its_strategy() {
    let warnings = lint(&config_with(&["nonsense"]));
    assert_eq!(warnings.len(), 1);
    assert_eq!(warnings[0].strategy.as_deref(), Some("s"));
}
