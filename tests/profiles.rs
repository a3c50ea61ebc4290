use noitad::error::{ErrorKind, NoitadError};
use noitad::mod_config::{Mod, Mods};
use noitad::profiles::{profile_file_path, ModProfiles, ProfileEntry};

const LIVE: &str = "<Mods><Mod enabled=\"1\" name=\"evaisa.lua\" settings_fold_open=\"0\" workshop_item_id=\"0\"/></Mods>";

#[test]
fn profile_file_is_named_after_the_profile() {
    assert_eq!(profile_file_path("/cfg/profiles", "default"), "/cfg/profiles/default.xml");
    assert_eq!(profile_file_path("/cfg/profiles/", "x"), "/cfg/profiles/x.xml");
}

#[test]
fn add_twice_fails_with_already_exists() {
    let mut p = ModProfiles::new();
    let (mods, write) = p.add_profile("default", "/d", LIVE).unwrap();
    assert_eq!(mods, Mods::new(vec![Mod::new(true, "evaisa.lua".to_string(), false, 0)]));
    assert_eq!(write.path, "/d/default.xml");
    assert_eq!(write.contents, LIVE);
    let again = p.add_profile("default", "/d", LIVE);
    assert_eq!(again, Err(NoitadError::ProfileExists("default".to_string())));
    assert_eq!(again.unwrap_err().kind(), ErrorKind::AlreadyExists);
    assert_eq!(p.len(), 1);
}

#[test]
fn add_with_malformed_live_file_registers_nothing() {
    let mut p = ModProfiles::new();
    assert_eq!(p.add_profile("x", "/d", "<Mods>"), Err(NoitadError::Decode));
    assert_eq!(p.len(), 0);
}

#[test]
fn remove_unregistered_fails_with_not_found() {
    let mut p = ModProfiles::new();
    let r = p.remove_profile("ghost");
    assert_eq!(r, Err(NoitadError::ProfileNotFound("ghost".to_string())));
    assert_eq!(r.unwrap_err().kind(), ErrorKind::NotFound);
    p.add_profile("a", "/d", LIVE).unwrap();
    assert_eq!(p.remove_profile("a"), Ok("/d/a.xml".to_string()));
    assert_eq!(p.remove_profile("a"), Err(NoitadError::ProfileNotFound("a".to_string())));
}

#[test]
fn get_and_update_need_a_registered_name() {
    let mut p = ModProfiles::new();
    assert_eq!(p.get_profile("a", LIVE), Err(NoitadError::ProfileNotFound("a".to_string())));
    p.add_profile("a", "/d", LIVE).unwrap();
    let list = p.get_profile("a", LIVE).unwrap();
    assert_eq!(list.mods.len(), 1);
    assert_eq!(p.get_profile("a", "junk"), Err(NoitadError::Decode));
    let w = p.update_profile("a", &Mods::new(vec![])).unwrap();
    assert_eq!(w.path, "/d/a.xml");
    assert_eq!(w.contents, "<Mods></Mods>");
    assert!(p.update_profile("b", &list).is_err());
}

#[test]
fn registry_keeps_insertion_order_and_first_of_each_name() {
    let entries = vec![
        ProfileEntry { name: "b".to_string(), path: "/1".to_string() },
        ProfileEntry { name: "a".to_string(), path: "/2".to_string() },
        ProfileEntry { name: "b".to_string(), path: "/3".to_string() },
    ];
    let p = ModProfiles::from_entries(entries);
    assert_eq!(p.names(), vec!["b".to_string(), "a".to_string()]);
    assert_eq!(p.path_of("b"), Ok("/1".to_string()));
    assert!(p.contains("a"));
    assert!(!p.contains("c"));
    assert_eq!(p.entries().len(), 2);
}
