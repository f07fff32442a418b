//! Tests for the directory model of candidate part files.

use p8parts::components::ComponentFiles;

fn b(s: &str) -> Vec<u8> {
    s.as_bytes().to_vec()
}

#[test]
fn components_start_empty() {
    let c = ComponentFiles::new();
    assert!(c.is_empty());
    assert_eq!(c.iter(), Vec::<Vec<u8>>::new());
}

#[test]
fn components_iter_lists_lua_then_rsc_paths() {
    let mut c = ComponentFiles::new();
    c.insert_lua(b("boot"), b("dir/boot.lua"));
    c.insert_rsc(b("gfx"), b("dir/gfx.p8rsc"));
    c.insert_lua(b("game"), b("dir/game.lua"));
    assert!(!c.is_empty());
    assert_eq!(c.iter(), vec![b("dir/boot.lua"), b("dir/game.lua"), b("dir/gfx.p8rsc")]);
}

#[test]
fn components_insert_replaces_on_same_key() {
    let mut c = ComponentFiles::new();
    c.insert_lua(b("boot"), b("old/boot.lua"));
    c.insert_lua(b("boot"), b("new/boot.lua"));
    assert_eq!(c.iter(), vec![b("new/boot.lua")]);
}

#[test]
fn components_remove_script_names() {
    let mut c = ComponentFiles::new();
    c.insert_lua(b("boot"), b("boot.lua"));
    c.insert_lua(b("game"), b("game.lua"));
    c.insert_rsc(b("gfx"), b("gfx.p8rsc"));
    c.remove_script_names(&vec![b("boot"), b("absent")]);
    assert_eq!(c.iter(), vec![b("game.lua"), b("gfx.p8rsc")]);
}

#[test]
fn components_remove_resource_kinds() {
    let mut c = ComponentFiles::new();
    c.insert_lua(b("boot"), b("boot.lua"));
    c.insert_rsc(b("gfx"), b("gfx.p8rsc"));
    c.insert_rsc(b("map"), b("map.p8rsc"));
    c.remove_resource_kinds(&vec![b("map")]);
    assert_eq!(c.iter(), vec![b("boot.lua"), b("gfx.p8rsc")]);
    c.remove_resource_kinds(&vec![b("gfx")]);
    c.remove_script_names(&vec![b("boot")]);
    assert!(c.is_empty());
}

#[test]
fn components_leftovers_after_a_dump() {
    // The dump's order records name what was written; everything else in
    // the directory is stale and listed for the caller.
    let mut c = ComponentFiles::new();
    c.insert_lua(b("boot"), b("boot.lua"));
    c.insert_lua(b("stale"), b("stale.lua"));
    c.insert_rsc(b("gfx"), b("gfx.p8rsc"));
    c.insert_rsc(b("old"), b("old.p8rsc"));
    c.remove_script_names(&vec![b("boot")]);
    c.remove_resource_kinds(&vec![b("gfx")]);
    assert_eq!(c.iter(), vec![b("stale.lua"), b("old.p8rsc")]);
}
