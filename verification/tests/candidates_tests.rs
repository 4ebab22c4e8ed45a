use blkbstr::candidates::{candidates, cost, ranked};
use blkbstr::registry::{function, Platform};
use blkbstr::render::{parameter_file, EngineOptions};

#[test]
fn every_candidate_is_valid_and_names_functions_this_build_knows() {
    for config in candidates() {
        config.validate().unwrap_or_else(|e| panic!("{}: {}", config.name, e.message()));
        for action in config.strategies.iter().flat_map(|s| &s.actions) {
            assert!(
                function(&action.function).is_some(),
                "{}: `{}` is not a function this build knows",
                config.name,
                action.function
            );
        }
    }
}

#[test]
fn every_candidate_intercepts_something() {
    for config in candidates() {
        let ports: Vec<_> = config
            .strategies
            .iter()
            .filter(|s| s.enabled)
            .filter_map(|s| s.filter.tcp.clone())
            .collect();
        assert!(!ports.is_empty(), "{} selects no TCP port", config.name);
    }
}

#[test]
fn cost_orders_gentle_below_invasive() {
    let by_name = |name: &str| {
        let config = candidates()
            .into_iter()
            .find(|c| c.name == name)
            .unwrap_or_else(|| panic!("no candidate named {name}"));
        cost(&config)
    };
    assert!(by_name("multisplit-midsld") < by_name("fake-md5"));
    assert!(by_name("fake-md5") < by_name("wssize-multisplit-midsld"));
    assert!(by_name("multisplit-2") < by_name("multisplit-1-midsld"));
    assert_eq!(ranked().len(), candidates().len());
}

#[test]
fn candidate_names_are_unique_and_usable_as_filenames() {
    let mut names: Vec<_> = candidates().iter().map(|c| c.name.clone()).collect();
    let before = names.len();
    names.sort();
    names.dedup();
    assert_eq!(names.len(), before, "duplicate candidate name");
}

fn options() -> EngineOptions {
    EngineOptions {
        platform: Platform::Linux,
        queue_num: 200,
        pidfile: "/run/blkbstr/engine.pid".into(),
        debug_log: None,
        lua_init: Vec::new(),
        validate: false,
    }
}

#[test]
fn each_candidate_renders_one_profile_with_at_least_one_action() {
    for config in candidates() {
        let rendered = parameter_file(&config, &options());
        assert_eq!(rendered.matches("--name=").count(), 1, "{}: {rendered}", config.name);
        assert_eq!(rendered.matches("--new=").count(), 0, "{}", config.name);
        assert!(rendered.contains("--lua-desync="), "{}: {rendered}", config.name);
        assert!(rendered.contains("--filter-tcp="), "{}: {rendered}", config.name);
    }
}

#[test]
fn the_list_starts_with_plain_splits_and_has_every_family() {
    let all = candidates();
    assert_eq!(all.len(), 113);
    assert_eq!(all[0].name, "multisplit-1-midsld");
    assert_eq!(all[0].notes.as_deref(), Some("Split the TLS hello at the domain name, and again at the start"));
    assert_eq!(all[8].name, "multisplit-1-sniext-1-host-1-midsld-2-midsld-midsld-2-endhost-1");
    assert_eq!(all[all.len() - 1].name, "http-hostcase");
    assert!(all.iter().any(|c| c.name == "fake-autottl-3"));
    assert!(all.iter().any(|c| c.name == "fake-ttl-12"));
    assert!(all.iter().any(|c| c.name == "fakeddisorder-syn-sniext-1"));
}

#[test]
fn costs_follow_their_weights() {
    let all = candidates();
    let find = |name: &str| all.iter().find(|c| c.name == name).unwrap();
    // One split action, one cut.
    assert_eq!(cost(find("multisplit-midsld")), 1);
    // A decoy with md5 (3 + 1 discarded) and a split with two cuts (1 + 1).
    assert_eq!(cost(find("fake-md5")), 7);
    // A fake repeated twice with a ttl argument, then the split.
    assert_eq!(cost(find("fake-ttl-3")), 10);
    let r = ranked();
    assert_eq!(r[0].cost, cost(&all[0]));
    assert_eq!(r[0].config.name, all[0].name);
}
