use noitad::config::Config;
use noitad::error::{ErrorKind, NoitadError};
use noitad::mod_config::{Mod, Mods};
use noitad::path::NoitaPath;

const LIVE: &str = "<Mods><Mod enabled=\"1\" name=\"evaisa.lua\" settings_fold_open=\"0\" workshop_item_id=\"0\"/></Mods>";

fn save() -> Option<String> {
    Some("/save00".to_string())
}

fn fresh() -> Config {
    Config::new(NoitaPath::Other(None))
}

#[test]
fn add_default_captures_live_list_and_becomes_active() {
    let mut cfg = fresh();
    let writes = cfg.add("default", &save(), "/cfg/profiles", LIVE).unwrap();
    assert_eq!(writes.len(), 1);
    assert_eq!(writes[0].path, "/cfg/profiles/default.xml");
    let stored = Mods::from_xml(&writes[0].contents).unwrap();
    assert_eq!(stored, Mods::new(vec![Mod::new(true, "evaisa.lua".to_string(), false, 0)]));
    assert_eq!(cfg.active_profile, Some("default".to_string()));
    assert_eq!(cfg.list(), Ok(vec!["default".to_string()]));
}

#[test]
fn add_keeps_existing_active_profile() {
    let mut cfg = fresh();
    cfg.add("one", &save(), "/p", LIVE).unwrap();
    cfg.add("two", &save(), "/p", LIVE).unwrap();
    assert_eq!(cfg.active_profile, Some("one".to_string()));
}

#[test]
fn add_without_save_dir_fails() {
    let mut cfg = fresh();
    let r = cfg.add("x", &None, "/p", LIVE);
    assert_eq!(r, Err(NoitadError::SaveDirNotFound));
    assert_eq!(r.unwrap_err().kind(), ErrorKind::NotFound);
    assert_eq!(cfg.list(), Err(NoitadError::NoProfiles));
}

#[test]
fn remove_active_profile_fails_with_invalid_state() {
    let mut cfg = fresh();
    cfg.add("default", &save(), "/p", LIVE).unwrap();
    cfg.add("other", &save(), "/p", LIVE).unwrap();
    let r = cfg.remove("default");
    assert_eq!(r, Err(NoitadError::ProfileActive("default".to_string())));
    assert_eq!(r.unwrap_err().kind(), ErrorKind::InvalidState);
    assert_eq!(cfg.remove("other"), Ok("/p/other.xml".to_string()));
    assert_eq!(cfg.list(), Ok(vec!["default".to_string()]));
    assert_eq!(cfg.remove("nope"), Err(NoitadError::ProfileNotFound("nope".to_string())));
}

#[test]
fn switch_twice_without_sync_writes_the_same_live_file() {
    let mut cfg = fresh();
    cfg.active_profile_sync = false;
    cfg.add("a", &save(), "/p", LIVE).unwrap();
    let profile_text = "<Mods><Mod enabled=\"0\" name=\"m\" settings_fold_open=\"1\" workshop_item_id=\"4\"/></Mods>";
    let first = cfg.switch("a", &save(), profile_text, LIVE).unwrap();
    let state = cfg.clone();
    let second = cfg.switch("a", &save(), profile_text, "<Mods></Mods>").unwrap();
    assert_eq!(first, second);
    assert_eq!(cfg, state);
    assert_eq!(first.len(), 1);
    assert_eq!(first[0].path, "/save00/mod_config.xml");
    assert_eq!(first[0].contents, profile_text);
}

#[test]
fn switch_with_sync_stores_the_merge_and_writes_it_live() {
    let mut cfg = fresh();
    cfg.add("a", &save(), "/p", LIVE).unwrap();
    let stored = "<Mods><Mod enabled=\"1\" name=\"A\" settings_fold_open=\"0\" workshop_item_id=\"0\"/><Mod enabled=\"0\" name=\"B\" settings_fold_open=\"0\" workshop_item_id=\"0\"/></Mods>";
    let live = "<Mods><Mod enabled=\"0\" name=\"A\" settings_fold_open=\"0\" workshop_item_id=\"0\"/><Mod enabled=\"1\" name=\"C\" settings_fold_open=\"0\" workshop_item_id=\"0\"/></Mods>";
    let writes = cfg.switch("a", &save(), stored, live).unwrap();
    assert_eq!(writes.len(), 2);
    assert_eq!(writes[0].path, "/p/a.xml");
    assert_eq!(writes[1].path, "/save00/mod_config.xml");
    assert_eq!(writes[0].contents, writes[1].contents);
    let merged = Mods::from_xml(&writes[0].contents).unwrap();
    let names: Vec<&str> = merged.mods.iter().map(|m| m.name.as_str()).collect();
    assert_eq!(names, vec!["A", "B", "C"]);
    assert!(!merged.mods[0].enabled);
}

#[test]
fn switch_errors() {
    let mut cfg = fresh();
    assert_eq!(cfg.switch("a", &None, LIVE, LIVE), Err(NoitadError::SaveDirNotFound));
    assert_eq!(
        cfg.switch("a", &save(), LIVE, LIVE),
        Err(NoitadError::ProfileNotFound("a".to_string()))
    );
    cfg.add("a", &save(), "/p", LIVE).unwrap();
    assert_eq!(cfg.switch("a", &save(), "bad", LIVE), Err(NoitadError::Decode));
    assert_eq!(cfg.switch("a", &save(), LIVE, "bad"), Err(NoitadError::Decode));
}

#[test]
fn edit_with_two_enabled_entries_of_one_name_fails_without_writes() {
    let mut cfg = fresh();
    cfg.add("a", &save(), "/p", LIVE).unwrap();
    let list = Mods::new(vec![
        Mod::new(false, "X".to_string(), false, 0),
        Mod::new(false, "Y".to_string(), false, 0),
        Mod::new(false, "X".to_string(), false, 7),
    ]);
    let r = cfg.edit_apply("a", &list, &vec![0, 2], &"/save00".to_string());
    assert_eq!(r, Err(NoitadError::DuplicateEnabled(vec!["X".to_string()])));
    assert_eq!(r.unwrap_err().kind(), ErrorKind::InvalidState);
    // selecting only one of them is fine
    assert!(cfg.edit_apply("a", &list, &vec![0, 1], &"/save00".to_string()).is_ok());
}

#[test]
fn edit_applies_selection_and_writes_live_file_for_active_profile() {
    let mut cfg = fresh();
    cfg.add("a", &save(), "/p", LIVE).unwrap();
    cfg.add("b", &save(), "/p", LIVE).unwrap();
    let list = Mods::new(vec![
        Mod::new(true, "P".to_string(), false, 0),
        Mod::new(false, "Q".to_string(), true, 3),
    ]);
    let w = cfg.edit_apply("a", &list, &vec![1], &"/save00".to_string()).unwrap();
    assert_eq!(w.len(), 2);
    assert_eq!(w[0].path, "/p/a.xml");
    assert_eq!(w[1].path, "/save00/mod_config.xml");
    let stored = Mods::from_xml(&w[0].contents).unwrap();
    assert_eq!(
        stored,
        Mods::new(vec![
            Mod::new(false, "P".to_string(), false, 0),
            Mod::new(true, "Q".to_string(), true, 3),
        ])
    );
    let w = cfg.edit_apply("b", &list, &vec![], &"/save00".to_string()).unwrap();
    assert_eq!(w.len(), 1);
    assert_eq!(
        cfg.edit_apply("zz", &list, &vec![], &"/save00".to_string()),
        Err(NoitadError::ProfileNotFound("zz".to_string()))
    );
}

#[test]
fn edit_begin_picks_active_profile_and_merges() {
    let mut cfg = fresh();
    assert_eq!(
        cfg.edit_begin(&None, &save(), LIVE, LIVE),
        Err(NoitadError::NoProfileSelected)
    );
    cfg.add("a", &save(), "/p", LIVE).unwrap();
    let live = "<Mods><Mod enabled=\"0\" name=\"evaisa.lua\" settings_fold_open=\"1\" workshop_item_id=\"0\"/></Mods>";
    let (name, list) = cfg.edit_begin(&None, &save(), LIVE, live).unwrap();
    assert_eq!(name, "a");
    assert_eq!(list, Mods::new(vec![Mod::new(false, "evaisa.lua".to_string(), true, 0)]));
    assert_eq!(
        cfg.edit_begin(&Some("q".to_string()), &save(), LIVE, live),
        Err(NoitadError::ProfileNotFound("q".to_string()))
    );
    assert_eq!(cfg.edit_begin(&None, &None, LIVE, live), Err(NoitadError::SaveDirNotFound));
}

#[test]
fn restore_drops_unknown_active_profile() {
    let entries = vec![noitad::profiles::ProfileEntry {
        name: "a".to_string(),
        path: "/p/a.xml".to_string(),
    }];
    let cfg = Config::restore(NoitaPath::Steam, entries.clone(), Some("zz".to_string()), false);
    assert_eq!(cfg.active_profile, None);
    assert!(!cfg.active_profile_sync);
    let cfg = Config::restore(NoitaPath::Steam, entries, Some("a".to_string()), true);
    assert_eq!(cfg.active_profile, Some("a".to_string()));
}
