use blkbstr::detect::{
    distro_from, lua_runtime_from, lua_scripts, lua_supported, package_manager_for,
    parse_lua_version, parse_os_release, pick_lua, version_banner, LuaFlavour, PackageManager,
};

#[test]
fn reads_both_lua_flavours() {
    assert_eq!(
        parse_lua_version("LuaJIT 2.1.1785763465 -- Copyright (C) 2005-2026 Mike Pall."),
        Some((LuaFlavour::LuaJit, 2, 1))
    );
    assert_eq!(
        parse_lua_version("Lua 5.5.1  Copyright (C) 1994-2026 Lua.org, PUC-Rio"),
        Some((LuaFlavour::Puc, 5, 5))
    );
    assert_eq!(parse_lua_version("bash: lua: command not found"), None);
}

#[test]
fn only_the_versions_zapret2_can_use_count_as_supported() {
    assert!(lua_supported(LuaFlavour::LuaJit, 2, 1));
    assert!(!lua_supported(LuaFlavour::LuaJit, 2, 0));
    assert!(lua_supported(LuaFlavour::Puc, 5, 3));
    assert!(!lua_supported(LuaFlavour::Puc, 5, 2));
}

#[test]
fn os_release_values_lose_their_quotes() {
    let text = "NAME=\"CachyOS Linux\"\nPRETTY_NAME=\"CachyOS\"\nID=cachyos\nID_LIKE=arch\n";
    let (id, id_like, pretty) = parse_os_release(text);
    assert_eq!(id.as_deref(), Some("cachyos"));
    assert_eq!(id_like.as_deref(), Some("arch"));
    assert_eq!(pretty.as_deref(), Some("CachyOS"));
    assert_eq!(parse_os_release("ID=\n").0, None);
}

#[test]
fn derivatives_are_covered_by_their_parent() {
    assert_eq!(package_manager_for("cachyos", Some("arch")), Some(PackageManager::Pacman));
    assert_eq!(package_manager_for("linuxmint", Some("ubuntu debian")), Some(PackageManager::Apt));
    assert_eq!(package_manager_for("fedora", None), Some(PackageManager::Dnf));
    assert_eq!(package_manager_for("plan9", None), None);
}

#[test]
fn a_supported_runtime_is_preferred_over_the_first_found() {
    let old = lua_runtime_from("/usr/bin/lua".into(), "Lua 5.1.5  Copyright (C) 1994-2012".into()).unwrap();
    assert!(!old.supported);
    let new = lua_runtime_from("/usr/bin/lua5.4".into(), "Lua 5.4.6  Copyright".into()).unwrap();
    assert!(new.supported);
    let picked = pick_lua(vec![old, new]).unwrap();
    assert_eq!(picked.tool.path, "/usr/bin/lua5.4");
    let only_old = lua_runtime_from("/usr/bin/lua".into(), "Lua 5.1.5".into()).unwrap();
    assert_eq!(pick_lua(vec![only_old]).unwrap().major, 5);
    assert!(pick_lua(Vec::new()).is_none());
    assert!(lua_runtime_from("/bin/sh".into(), "sh: no".into()).is_none());
}

#[test]
fn a_banner_on_stderr_counts_when_stdout_is_empty() {
    assert_eq!(version_banner("", "\n  LuaJIT 2.1.0  \n").as_deref(), Some("LuaJIT 2.1.0"));
    assert_eq!(version_banner("nft v1.0.9\n", "ignored").as_deref(), Some("nft v1.0.9"));
    assert_eq!(version_banner("", ""), None);
}

#[test]
fn a_distro_is_described_by_os_release() {
    let d = distro_from("ID=ubuntu\nPRETTY_NAME=\"Ubuntu 24.04\"\n").unwrap();
    assert_eq!(d.id, "ubuntu");
    assert_eq!(d.pretty_name.as_deref(), Some("Ubuntu 24.04"));
    assert_eq!(d.package_manager, Some(PackageManager::Apt));
    assert!(distro_from("NAME=x\n").is_none());
}

#[test]
fn the_lua_library_loads_in_order() {
    assert_eq!(lua_scripts(), ["zapret-lib.lua", "zapret-antidpi.lua", "zapret-auto.lua"]);
}
